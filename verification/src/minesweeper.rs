//! The mine-clearing game behind the grid-game shape: state
//! classification from the field's statistics, status text, a rendered
//! board of labeled cells, and the single interaction that lazily seeds
//! the field, uncovers a cell, or chords around one.

use vstd::prelude::*;

use crate::game::{pos, Coord};
use crate::grid_game::{board_view, GameState, GridGame};
use crate::mine_field::{
    cell_at, gidx, in_grid, lemma_cell_number_bounded, lemma_no_exploded_count,
    lemma_seed_reached, numbering_ok, reaches, start_at, starts_around, Cell, CellValue,
    MineField, State,
};
use crate::counting::{
    lemma_count_matching_bounds, lemma_count_matching_complement, lemma_count_matching_congruence,
    lemma_count_matching_equal, lemma_count_matching_lower, lemma_count_matching_zero,
    count_matching,
};
use crate::mine_field::{pred_blank_uncovered, pred_exploded, pred_mine, pred_nonmine};
use crate::text::{dec_str, digit_char, usize_to_string};

verus! {

/// Whether the chord ("uncover around") action is permitted at all.
#[derive(Clone, Copy, PartialEq, Eq, Structural, Debug)]
pub enum MinesweeperModes {
    Classic,
    NoFlag,
}

/// A running mine-clearing game: the field plus the play-mode flag.
pub struct Minesweeper {
    pub field: MineField,
    pub mode: MinesweeperModes,
}

/// The label a cell is rendered with: covered marker, exploded marker,
/// blank for a revealed zero, a digit, or — defensively — a mine marker.
pub open spec fn cell_label(c: Cell) -> Seq<char> {
    match c.state {
        State::Covered => "■"@,
        State::Exploded => "💣"@,
        State::Uncovered => match c.value {
            CellValue::Mine => "🚩"@,
            CellValue::Number(n) => if n == 0 {
                " "@
            } else {
                seq![digit_char(n as int)]
            },
        },
    }
}

/// The one-cell label of the rendered board.
pub fn to_string(cell: &Cell) -> (r: &'static str)
    requires
        match cell.value {
            CellValue::Mine => true,
            CellValue::Number(n) => n <= 8,
        },
    ensures
        r@ == cell_label(*cell),
{
    match cell.state {
        State::Covered => "■",
        State::Exploded => "💣",
        State::Uncovered => match cell.value {
            CellValue::Mine => "🚩",
            CellValue::Number(n) => {
                if n == 0 {
                    " "
                } else {
                    crate::text::digit_str(n as usize)
                }
            },
        },
    }
}

impl Minesweeper {
    /// The status text: dimensions, then how many mines are left against
    /// the total.
    pub open spec fn text_of(self) -> Seq<char> {
        dec_str(self.field.rows as int) + " x "@ + dec_str(self.field.columns as int) + "\n"@
            + dec_str(self.field.stats.covered_mine as int) + " left / "@ + dec_str(
            self.field.mines as int,
        ) + " mines"@
    }

    /// The board: one labeled cell per position, its callback token the
    /// position's coordinates as two whitespace-separated integers.
    pub open spec fn board_of(self) -> Seq<Seq<(Seq<char>, Seq<char>)>> {
        Seq::new(
            self.field.rows as nat,
            |i: int|
                Seq::new(
                    self.field.columns as nat,
                    |j: int|
                        (
                            cell_label(
                                cell_at(self.field.field@, self.field.columns as int, (i, j)),
                            ),
                            dec_str(i) + " "@ + dec_str(j),
                        ),
                ),
        )
    }
}

impl GridGame for Minesweeper {
    open spec fn wf(&self) -> bool {
        self.field.wf()
    }

    open spec fn coord_ok(&self, coord: Coord) -> bool {
        self.field.spec_in_grid(coord)
    }

    /// A fresh field is always changed: it is seeded and its chosen cell
    /// uncovered. On a seeded field, a covered cell is uncovered; any
    /// other cell changes the grid only through a Classic-mode chord
    /// whose counts line up.
    open spec fn spec_changed(&self, coord: Coord) -> bool {
        ||| !self.field.initialized
        ||| cell_at(self.field.field@, self.field.columns as int, pos(coord)).state
            == State::Covered
        ||| (self.mode == MinesweeperModes::Classic && self.field.chord_applies(coord))
    }

    /// What an interaction may do. A first interaction seeds the grid —
    /// the mine count, the numbering and the safety of the chosen cell
    /// hold of every random draw — and reveals the chosen cell without
    /// an explosion. On a seeded grid the step is the exact uncover or
    /// chord transformation of the pre-state, and a rejected move
    /// changes nothing at all.
    open spec fn spec_step(&self, coord: Coord, post: Self) -> bool {
        let rr = self.field.rows as int;
        let cc = self.field.columns as int;
        &&& post.mode == self.mode
        &&& post.field.rows == self.field.rows
        &&& post.field.columns == self.field.columns
        &&& post.field.mines == self.field.mines
        &&& post.field.initialized
        &&& if !self.field.initialized {
            &&& post.field.field@.len() == rr * cc
            &&& crate::counting::count_matching(post.field.field@, crate::mine_field::pred_mine())
                == self.field.mines
            &&& numbering_ok(post.field.field@, rr, cc)
            &&& cell_at(post.field.field@, cc, pos(coord)).value != CellValue::Mine
            &&& cell_at(post.field.field@, cc, pos(coord)).state == State::Uncovered
            &&& post.field.stats.exploded == 0
        } else {
            &&& post.field.field@.len() == self.field.field@.len()
            &&& forall|i: int|
                0 <= i < post.field.field@.len() ==> (#[trigger] post.field.field@[i]).value
                    == self.field.field@[i].value
            &&& {
                let cell = cell_at(self.field.field@, cc, pos(coord));
                if cell.state == State::Covered {
                    if cell.value == CellValue::Mine {
                        post.field.field@ == self.field.field@.update(
                            gidx(cc, pos(coord)),
                            Cell { value: CellValue::Mine, state: State::Exploded },
                        )
                    } else {
                        forall|t: (int, int)|
                            in_grid(rr, cc, t) ==> (#[trigger] cell_at(
                                post.field.field@,
                                cc,
                                t,
                            )).state == (if reaches(
                                self.field.field@,
                                rr,
                                cc,
                                start_at(coord),
                                t,
                            ) {
                                State::Uncovered
                            } else {
                                cell_at(self.field.field@, cc, t).state
                            })
                    }
                } else if self.mode == MinesweeperModes::Classic && self.field.chord_applies(
                    coord,
                ) {
                    forall|t: (int, int)|
                        in_grid(rr, cc, t) ==> (#[trigger] cell_at(
                            post.field.field@,
                            cc,
                            t,
                        )).state == (if reaches(
                            self.field.field@,
                            rr,
                            cc,
                            starts_around(pos(coord), rr, cc),
                            t,
                        ) {
                            State::Uncovered
                        } else {
                            cell_at(self.field.field@, cc, t).state
                        })
                } else {
                    post == *self
                }
            }
        }
    }

    /// Game over once a mine exploded; solved once every non-mine cell is
    /// uncovered (the count equation); normal otherwise.
    open spec fn spec_state(&self) -> GameState {
        if self.field.stats.exploded > 0 {
            GameState::GameOver
        } else if self.field.stats.uncovered_blank + self.field.mines == self.field.rows
            * self.field.columns {
            GameState::Solved
        } else {
            GameState::Normal
        }
    }

    open spec fn spec_text(&self) -> Seq<char> {
        self.text_of()
    }

    open spec fn spec_board(&self) -> Seq<Seq<(Seq<char>, Seq<char>)>> {
        self.board_of()
    }

    fn get_state(&self) -> (r: GameState) {
        proof {
            lemma_count_matching_bounds(self.field.field@, pred_blank_uncovered());
        }
        let stats = self.field.get_stats();
        if stats.exploded > 0 {
            GameState::GameOver
        } else if stats.uncovered_blank + self.field.get_mines() == self.field.get_rows()
            * self.field.get_columns() {
            GameState::Solved
        } else {
            GameState::Normal
        }
    }

    fn get_text(&self) -> (r: String) {
        let mut t = usize_to_string(self.field.get_rows());
        t.append(" x ");
        t.append(usize_to_string(self.field.get_columns()).as_str());
        t.append("\n");
        t.append(usize_to_string(self.field.get_stats().covered_mine).as_str());
        t.append(" left / ");
        t.append(usize_to_string(self.field.get_mines()).as_str());
        t.append(" mines");
        proof {
            assert(t@ =~= self.text_of());
        }
        t
    }

    fn render(&self) -> (r: Vec<Vec<(String, String)>>) {
        let rows = self.field.get_rows();
        let columns = self.field.get_columns();
        let mut r: Vec<Vec<(String, String)>> = Vec::new();
        let mut i: usize = 0;
        while i < rows
            invariant
                self.field.wf(),
                rows == self.field.rows,
                columns == self.field.columns,
                0 <= i <= rows,
                r@.len() == i,
                forall|i2: int|
                    0 <= i2 < i ==> board_view(r@)[i2] == #[trigger] self.board_of()[i2],
            decreases rows - i,
        {
            let row_cells = self.field.iter_row(i);
            let mut row: Vec<(String, String)> = Vec::new();
            let mut j: usize = 0;
            while j < columns
                invariant
                    self.field.wf(),
                    rows == self.field.rows,
                    columns == self.field.columns,
                    0 <= i < rows,
                    0 <= j <= columns,
                    row_cells@.len() == columns,
                    forall|c: int|
                        0 <= c < columns ==> #[trigger] row_cells@[c] == cell_at(
                            self.field.field@,
                            columns as int,
                            (i as int, c),
                        ),
                    row@.len() == j,
                    forall|j2: int|
                        0 <= j2 < j ==> (#[trigger] row@[j2].0@, row@[j2].1@) == self.board_of()[i as int][j2],
                decreases columns - j,
            {
                proof {
                    lemma_cell_number_bounded(self.field, (i as int, j as int));
                }
                let cell = row_cells[j];
                let label = String::from_str(to_string(&cell));
                let mut token = usize_to_string(i);
                token.append(" ");
                token.append(usize_to_string(j).as_str());
                proof {
                    assert(token@ =~= dec_str(i as int) + " "@ + dec_str(j as int));
                }
                let ghost row_old = row@;
                row.push((label, token));
                j = j + 1;
                proof {
                    assert(self.board_of()[i as int][j - 1] == (
                        cell_label(
                            cell_at(self.field.field@, self.field.columns as int, (
                                i as int,
                                j - 1,
                            )),
                        ),
                        dec_str(i as int) + " "@ + dec_str(j - 1),
                    ));
                    assert(row@[j - 1].0@ == cell_label(
                        cell_at(self.field.field@, self.field.columns as int, (i as int, j - 1)),
                    ));
                    assert(row@[j - 1].1@ == dec_str(i as int) + " "@ + dec_str(j - 1));
                    assert((row@[j - 1].0@, row@[j - 1].1@) == self.board_of()[i as int][j - 1]);
                    assert forall|j2: int| 0 <= j2 < j implies (#[trigger] row@[j2].0@, row@[j2].1@)
                        == self.board_of()[i as int][j2] by {
                        if j2 < j - 1 {
                            assert(row@[j2] == row_old[j2]);
                            assert((row_old[j2].0@, row_old[j2].1@) == self.board_of()[i as int][j2]);
                        }
                    }
                }
            }
            r.push(row);
            i = i + 1;
            proof {
                assert forall|i2: int|
                    0 <= i2 < i implies board_view(r@)[i2] == #[trigger] self.board_of()[i2] by {
                    if i2 == i - 1 {
                        assert(board_view(r@)[i2] =~= self.board_of()[i2]);
                    }
                }
            }
        }
        proof {
            assert(board_view(r@) =~= self.board_of());
        }
        r
    }

    /// Seed the field on the first interaction (never placing a mine on
    /// the chosen cell), then uncover a covered cell, or chord around an
    /// uncovered one when the mode allows it.
    fn interact(&mut self, coord: Coord) -> (changed: bool) {
        let ghost pre = *self;
        let ghost rr = self.field.rows as int;
        let ghost cc = self.field.columns as int;
        if !self.field.is_initialized() {
            self.field.initialize(coord);
            proof {
                crate::game::lemma_row_major_bounds(coord.0 as int, coord.1 as int, rr, cc);
            }
        }
        let ghost seeded = *self;
        if matches!(self.field.get(coord).state, State::Covered) {
            self.field.uncover(coord);
            proof {
                lemma_seed_reached(
                    seeded.field.field@,
                    rr,
                    cc,
                    start_at(coord),
                    pos(coord),
                );
                if !pre.field.initialized {
                    assert forall|t: (int, int)| in_grid(rr, cc, t) implies (#[trigger] cell_at(
                        self.field.field@,
                        cc,
                        t,
                    )).state != State::Exploded by {
                        crate::game::lemma_row_major_bounds(t.0, t.1, rr, cc);
                    }
                    lemma_no_exploded_count(self.field.field@, rr, cc);
                }
            }
            true
        } else {
            matches!(self.mode, MinesweeperModes::Classic) && self.field.uncover_around(coord)
        }
    }
}

/// Solved detection: once the field is seeded, the classifier reports
/// `Solved` exactly when every non-mine cell has been uncovered and no
/// cell has exploded. (The count equation `uncovered_blank + mines =
/// rows * columns` is the classifier's `Solved` test together with the
/// explosion check that precedes it.)
pub proof fn lemma_solved_detection(g: Minesweeper)
    requires
        g.wf(),
        g.field.initialized,
    ensures
        g.spec_state() == GameState::Solved <==> ((forall|p: (int, int)|
            in_grid(g.field.rows as int, g.field.columns as int, p) && (#[trigger] cell_at(
                g.field.field@,
                g.field.columns as int,
                p,
            )).value != CellValue::Mine ==> cell_at(g.field.field@, g.field.columns as int, p).state
                == State::Uncovered) && (forall|p: (int, int)|
            in_grid(g.field.rows as int, g.field.columns as int, p) ==> (#[trigger] cell_at(
                g.field.field@,
                g.field.columns as int,
                p,
            )).state != State::Exploded)),
{
    let fld = g.field.field@;
    let rr = g.field.rows as int;
    let cc = g.field.columns as int;
    assert(forall|x: Cell| #[trigger] pred_nonmine()(x) == !pred_mine()(x));
    lemma_count_matching_complement(fld, pred_mine(), pred_nonmine());
    assert(count_matching(fld, pred_nonmine()) == rr * cc - g.field.mines);
    if g.spec_state() == GameState::Solved {
        assert(count_matching(fld, pred_blank_uncovered()) == count_matching(
            fld,
            pred_nonmine(),
        ));
        assert(forall|x: Cell| #[trigger] pred_blank_uncovered()(x) ==> pred_nonmine()(x));
        lemma_count_matching_equal(fld, pred_blank_uncovered(), pred_nonmine());
        assert forall|p: (int, int)|
            in_grid(rr, cc, p) && (#[trigger] cell_at(fld, cc, p)).value
                != CellValue::Mine implies cell_at(fld, cc, p).state == State::Uncovered by {
            crate::game::lemma_row_major_bounds(p.0, p.1, rr, cc);
            assert(pred_nonmine()(fld[gidx(cc, p)]));
        }
        assert forall|p: (int, int)| in_grid(rr, cc, p) implies (#[trigger] cell_at(
            fld,
            cc,
            p,
        )).state != State::Exploded by {
            crate::game::lemma_row_major_bounds(p.0, p.1, rr, cc);
            if cell_at(fld, cc, p).state == State::Exploded {
                lemma_count_matching_lower(fld, pred_exploded(), gidx(cc, p));
            }
        }
    }
    if (forall|p: (int, int)|
        in_grid(rr, cc, p) && (#[trigger] cell_at(fld, cc, p)).value != CellValue::Mine
            ==> cell_at(fld, cc, p).state == State::Uncovered) && (forall|p: (int, int)|
        in_grid(rr, cc, p) ==> (#[trigger] cell_at(fld, cc, p)).state != State::Exploded) {
        assert forall|i: int| 0 <= i < fld.len() implies pred_blank_uncovered()(#[trigger] fld[i])
            == pred_nonmine()(fld[i]) by {
            let p = (i / cc, i % cc);
            assert(in_grid(rr, cc, p)) by {
                assert(0 <= i < rr * cc);
                assert(0 <= i / cc < rr && 0 <= i % cc < cc) by (nonlinear_arith)
                    requires
                        0 <= i < rr * cc,
                        0 < cc,
                ;
            }
            assert(gidx(cc, p) == i) by {
                assert(i / cc * cc + i % cc == i) by (nonlinear_arith)
                    requires
                        0 < cc,
                ;
            }
            assert(cell_at(fld, cc, p) == fld[i]);
        }
        lemma_count_matching_congruence(fld, pred_blank_uncovered(), pred_nonmine());
        assert(g.field.stats.uncovered_blank + g.field.mines == rr * cc);
        assert forall|i: int| 0 <= i < fld.len() implies !pred_exploded()(#[trigger] fld[i]) by {
            let p = (i / cc, i % cc);
            assert(in_grid(rr, cc, p)) by {
                assert(0 <= i / cc < rr && 0 <= i % cc < cc) by (nonlinear_arith)
                    requires
                        0 <= i < rr * cc,
                        0 < cc,
                ;
            }
            assert(gidx(cc, p) == i) by {
                assert(i / cc * cc + i % cc == i) by (nonlinear_arith)
                    requires
                        0 < cc,
                ;
            }
            assert(cell_at(fld, cc, p) == fld[i]);
        }
        lemma_count_matching_zero(fld, pred_exploded());
        assert(g.spec_state() == GameState::Solved);
    }
}


/// The separators the argument scanner splits on: the Unicode
/// white-space characters, the same set Rust's whitespace splitting
/// uses.
pub open spec fn is_space(c: char) -> bool {
    let x = c as int;
    ||| 9 <= x <= 13
    ||| x == 32
    ||| x == 0x85
    ||| x == 0xA0
    ||| x == 0x1680
    ||| 0x2000 <= x <= 0x200A
    ||| x == 0x2028
    ||| x == 0x2029
    ||| x == 0x202F
    ||| x == 0x205F
    ||| x == 0x3000
}

/// First position at or after `i` holding a non-separator, or the end.
pub open spec fn tok_start(s: Seq<char>, i: int) -> int
    decreases s.len() - i,
{
    if 0 <= i < s.len() {
        if is_space(s[i]) {
            tok_start(s, i + 1)
        } else {
            i
        }
    } else {
        s.len() as int
    }
}

/// First position at or after `i` holding a separator, or the end.
pub open spec fn tok_end(s: Seq<char>, i: int) -> int
    decreases s.len() - i,
{
    if 0 <= i < s.len() {
        if !is_space(s[i]) {
            tok_end(s, i + 1)
        } else {
            i
        }
    } else {
        s.len() as int
    }
}

pub proof fn lemma_tok_start_bounds(s: Seq<char>, i: int)
    requires
        0 <= i <= s.len(),
    ensures
        i <= tok_start(s, i) <= s.len(),
        tok_start(s, i) < s.len() ==> !is_space(s[tok_start(s, i)]),
    decreases s.len() - i,
{
    if i < s.len() && is_space(s[i]) {
        lemma_tok_start_bounds(s, i + 1);
    }
}

pub proof fn lemma_tok_end_bounds(s: Seq<char>, i: int)
    requires
        0 <= i <= s.len(),
    ensures
        i <= tok_end(s, i) <= s.len(),
    decreases s.len() - i,
{
    if i < s.len() && !is_space(s[i]) {
        lemma_tok_end_bounds(s, i + 1);
    }
}

/// The whitespace-separated tokens of `s`, from position `i` on.
pub open spec fn tokens_from(s: Seq<char>, i: int) -> Seq<Seq<char>>
    decreases s.len() - i when 0 <= i via tokens_from_dec
{
    let st = tok_start(s, i);
    if st >= s.len() {
        Seq::empty()
    } else {
        seq![s.subrange(st, tok_end(s, st))] + tokens_from(s, tok_end(s, st))
    }
}

#[via_fn]
proof fn tokens_from_dec(s: Seq<char>, i: int) {
    if 0 <= i <= s.len() {
        lemma_tok_start_bounds(s, i);
        let st = tok_start(s, i);
        if st < s.len() {
            lemma_tok_end_bounds(s, st + 1);
            assert(tok_end(s, st) == tok_end(s, st + 1));
        }
    } else if i > s.len() {
        assert(tok_start(s, i) == s.len());
    }
}

/// The ASCII code of `c` with upper-case letters folded to lower case.
pub open spec fn lower_code(c: char) -> int {
    if 65 <= c as int <= 90 {
        c as int + 32
    } else {
        c as int
    }
}

/// Does the token spell a mode name, ASCII-case-insensitively?
pub open spec fn mode_of_tok(t: Seq<char>) -> Option<MinesweeperModes> {
    if t.len() == 6 && lower_code(t[0]) == 110 && lower_code(t[1]) == 111 && lower_code(t[2])
        == 102 && lower_code(t[3]) == 108 && lower_code(t[4]) == 97 && lower_code(t[5]) == 103 {
        Some(MinesweeperModes::NoFlag)
    } else if t.len() == 7 && lower_code(t[0]) == 99 && lower_code(t[1]) == 108 && lower_code(t[2])
        == 97 && lower_code(t[3]) == 115 && lower_code(t[4]) == 115 && lower_code(t[5]) == 105
        && lower_code(t[6]) == 99 {
        Some(MinesweeperModes::Classic)
    } else {
        None
    }
}

pub open spec fn is_digit(c: char) -> bool {
    48 <= c as int <= 57
}

pub open spec fn digit_val(c: char) -> int {
    c as int - 48
}

/// The value of a digit string, most significant digit first.
pub open spec fn digits_val(t: Seq<char>) -> int
    decreases t.len(),
{
    if t.len() == 0 {
        0
    } else {
        digits_val(t.drop_last()) * 10 + digit_val(t.last())
    }
}

pub open spec fn all_digits(t: Seq<char>) -> bool {
    forall|i: int| 0 <= i < t.len() ==> is_digit(#[trigger] t[i])
}

/// What unsigned parsing accepts: at least one digit, optionally after a
/// plus sign, valued within the machine range.
pub open spec fn usize_of_tok(t: Seq<char>) -> Option<int> {
    let d = if t.len() >= 1 && t[0] == '+' {
        t.drop_first()
    } else {
        t
    };
    if d.len() >= 1 && all_digits(d) && digits_val(d) <= usize::MAX {
        Some(digits_val(d))
    } else {
        None
    }
}

pub proof fn lemma_digits_val_nonneg(t: Seq<char>)
    requires
        all_digits(t),
    ensures
        digits_val(t) >= 0,
    decreases t.len(),
{
    if t.len() > 0 {
        assert(all_digits(t.drop_last())) by {
            assert(forall|i: int| 0 <= i < t.len() - 1 ==> t.drop_last()[i] == #[trigger] t[i]);
        }
        lemma_digits_val_nonneg(t.drop_last());
    }
}

/// Appending digits never decreases a digit string's value.
pub proof fn lemma_digits_val_prefix(t: Seq<char>, k: int)
    requires
        all_digits(t),
        0 <= k <= t.len(),
    ensures
        digits_val(t.subrange(0, k)) <= digits_val(t),
    decreases t.len() - k,
{
    if k < t.len() {
        lemma_digits_val_prefix(t, k + 1);
        assert(t.subrange(0, k + 1).drop_last() =~= t.subrange(0, k));
        assert(t.subrange(0, k + 1).last() == t[k]);
        assert(all_digits(t.subrange(0, k))) by {
            assert(forall|i: int|
                0 <= i < k ==> t.subrange(0, k)[i] == #[trigger] t[i]);
        }
        lemma_digits_val_nonneg(t.subrange(0, k));
        assert(digits_val(t.subrange(0, k)) * 10 >= digits_val(t.subrange(0, k)))
            by (nonlinear_arith)
            requires
                digits_val(t.subrange(0, k)) >= 0,
        ;
    } else {
        assert(t.subrange(0, k) =~= t);
    }
}

/// One scan step per token: a mode name switches the mode, a number joins
/// the arguments (stopping at three), anything else is skipped.
pub open spec fn scan_args(toks: Seq<Seq<char>>, args: Seq<int>, mode: MinesweeperModes) -> (
    Seq<int>,
    MinesweeperModes,
)
    decreases toks.len(),
{
    if toks.len() == 0 {
        (args, mode)
    } else {
        match mode_of_tok(toks[0]) {
            Some(m) => scan_args(toks.drop_first(), args, m),
            None => match usize_of_tok(toks[0]) {
                Some(n) => if args.len() + 1 >= 3 {
                    (args.push(n), mode)
                } else {
                    scan_args(toks.drop_first(), args.push(n), mode)
                },
                None => scan_args(toks.drop_first(), args, mode),
            },
        }
    }
}

/// The configuration a command text selects: the tokens after the command
/// itself are scanned, then rows cap at 10 and columns at 8, with the
/// defaults 10, 8 and a tenth of the cells.
pub open spec fn parsed_config(s: Seq<char>) -> (int, int, int, MinesweeperModes) {
    let ts = tokens_from(s, 0);
    let rest = if ts.len() >= 1 {
        ts.drop_first()
    } else {
        ts
    };
    let (args, mode) = scan_args(rest, Seq::empty(), MinesweeperModes::Classic);
    let rows = if args.len() >= 1 {
        if args[0] < 10 {
            args[0]
        } else {
            10
        }
    } else {
        10
    };
    let columns = if args.len() >= 2 {
        if args[1] < 8 {
            args[1]
        } else {
            8
        }
    } else {
        8
    };
    let mines = if args.len() >= 3 {
        args[2]
    } else {
        rows * columns / 10
    };
    (rows, columns, mines, mode)
}

fn is_space_char(c: char) -> (r: bool)
    ensures
        r == is_space(c),
{
    let x = c as u32;
    (9 <= x && x <= 13) || x == 32 || x == 0x85 || x == 0xA0 || x == 0x1680 || (0x2000 <= x && x
        <= 0x200A) || x == 0x2028 || x == 0x2029 || x == 0x202F || x == 0x205F || x == 0x3000
}

fn find_tok_start(data: &str, i: usize, n: usize) -> (r: usize)
    requires
        i <= n,
        n == data@.len(),
    ensures
        r == tok_start(data@, i as int),
        i <= r <= n,
        r < n ==> !is_space(data@[r as int]),
{
    let mut cur = i;
    while cur < n && is_space_char(data.get_char(cur))
        invariant
            i <= cur <= n,
            n == data@.len(),
            tok_start(data@, i as int) == tok_start(data@, cur as int),
        decreases n - cur,
    {
        cur = cur + 1;
    }
    cur
}

fn find_tok_end(data: &str, i: usize, n: usize) -> (r: usize)
    requires
        i <= n,
        n == data@.len(),
    ensures
        r == tok_end(data@, i as int),
        i <= r <= n,
{
    let mut cur = i;
    while cur < n && !is_space_char(data.get_char(cur))
        invariant
            i <= cur <= n,
            n == data@.len(),
            tok_end(data@, i as int) == tok_end(data@, cur as int),
        decreases n - cur,
    {
        cur = cur + 1;
    }
    cur
}

/// The ASCII code of `c` with upper-case letters folded to lower case.
fn lower_code_of(c: char) -> (r: u32)
    ensures
        r as int == lower_code(c),
{
    let x = c as u32;
    if 65 <= x && x <= 90 {
        x + 32
    } else {
        x
    }
}

/// Parse the play mode a token names, if any.
fn parse_mode_tok(data: &str, st: usize, en: usize) -> (r: Option<MinesweeperModes>)
    requires
        st <= en <= data@.len(),
    ensures
        r == mode_of_tok(data@.subrange(st as int, en as int)),
{
    let ghost t = data@.subrange(st as int, en as int);
    let len = en - st;
    if len == 6 {
        if lower_code_of(data.get_char(st)) == 110 && lower_code_of(data.get_char(st + 1)) == 111
            && lower_code_of(data.get_char(st + 2)) == 102 && lower_code_of(
            data.get_char(st + 3),
        ) == 108 && lower_code_of(data.get_char(st + 4)) == 97 && lower_code_of(
            data.get_char(st + 5),
        ) == 103 {
            Some(MinesweeperModes::NoFlag)
        } else {
            None
        }
    } else if len == 7 {
        if lower_code_of(data.get_char(st)) == 99 && lower_code_of(data.get_char(st + 1)) == 108
            && lower_code_of(data.get_char(st + 2)) == 97 && lower_code_of(data.get_char(st + 3))
            == 115 && lower_code_of(data.get_char(st + 4)) == 115 && lower_code_of(
            data.get_char(st + 5),
        ) == 105 && lower_code_of(data.get_char(st + 6)) == 99 {
            Some(MinesweeperModes::Classic)
        } else {
            None
        }
    } else {
        None
    }
}

/// Parse a token as an unsigned number, rejecting overflow.
fn parse_usize_tok(data: &str, st: usize, en: usize) -> (r: Option<usize>)
    requires
        st <= en <= data@.len(),
    ensures
        match r {
            Some(v) => usize_of_tok(data@.subrange(st as int, en as int)) == Some(v as int),
            None => usize_of_tok(data@.subrange(st as int, en as int)) is None,
        },
{
    let ghost t = data@.subrange(st as int, en as int);
    let mut i = st;
    if i < en && data.get_char(i) == '+' {
        i = i + 1;
    }
    let ghost d = data@.subrange(i as int, en as int);
    proof {
        if t.len() >= 1 && t[0] == '+' {
            assert(d =~= t.drop_first());
        } else {
            assert(d =~= t);
        }
    }
    if i == en {
        return None;
    }
    let mut val: usize = 0;
    let mut j = i;
    while j < en
        invariant
            st <= i <= j <= en <= data@.len(),
            t == data@.subrange(st as int, en as int),
            d == data@.subrange(i as int, en as int),
            d == (if t.len() >= 1 && t[0] == '+' {
                t.drop_first()
            } else {
                t
            }),
            d.len() == en - i,
            d.len() >= 1,
            val == digits_val(d.subrange(0, j - i)),
            val <= usize::MAX,
            all_digits(d.subrange(0, j - i)),
        decreases en - j,
    {
        let c = data.get_char(j);
        let x = c as u32;
        proof {
            assert(d[j - i] == data@[j as int]);
            assert(d.subrange(0, j - i + 1).drop_last() =~= d.subrange(0, j - i));
            assert(d.subrange(0, j - i + 1).last() == d[j - i]);
        }
        if !(48 <= x && x <= 57) {
            proof {
                assert(!is_digit(d[j - i]));
                assert(!all_digits(d));
            }
            return None;
        }
        let w = (val as u128) * 10 + ((x - 48) as u128);
        if w > (usize::MAX as u128) {
            proof {
                assert(digits_val(d.subrange(0, j - i + 1)) == w);
                if all_digits(d) {
                    lemma_digits_val_prefix(d, j - i + 1);
                    assert(digits_val(d) > usize::MAX);
                }
            }
            return None;
        }
        val = w as usize;
        j = j + 1;
        proof {
            assert(all_digits(d.subrange(0, j - i))) by {
                assert(forall|k: int|
                    0 <= k < j - i - 1 ==> d.subrange(0, j - i)[k] == #[trigger] d.subrange(
                        0,
                        j - i - 1,
                    )[k]);
            }
        }
    }
    proof {
        assert(d.subrange(0, en - i) =~= d);
    }
    Some(val)
}

/// The view of the collected arguments as mathematical integers.
pub open spec fn args_view(v: Seq<usize>) -> Seq<int> {
    v.map_values(|x: usize| x as int)
}

/// Scan the tokens of `data` from position `i` on, folding them into the
/// collected arguments and mode.
fn scan_from(data: &str, i: usize, args: Vec<usize>, mode: MinesweeperModes) -> (r: (
    Vec<usize>,
    MinesweeperModes,
))
    requires
        i <= data@.len(),
        args@.len() < 3,
    ensures
        (args_view(r.0@), r.1) == scan_args(tokens_from(data@, i as int), args_view(args@), mode),
        r.0@.len() <= 3,
    decreases data@.len() - i,
{
    let n = data.unicode_len();
    let st = find_tok_start(data, i, n);
    proof {
        lemma_tok_start_bounds(data@, i as int);
    }
    if st >= n {
        proof {
            assert(tokens_from(data@, i as int) =~= Seq::<Seq<char>>::empty());
        }
        return (args, mode);
    }
    let en = find_tok_end(data, st, n);
    let ghost toks = tokens_from(data@, i as int);
    proof {
        lemma_tok_end_bounds(data@, st as int + 1);
        assert(tok_end(data@, st as int) == tok_end(data@, st as int + 1));
        assert(en > st);
        assert(toks == seq![data@.subrange(st as int, en as int)] + tokens_from(
            data@,
            en as int,
        ));
        assert(toks[0] == data@.subrange(st as int, en as int));
        assert(toks.drop_first() =~= tokens_from(data@, en as int));
    }
    match parse_mode_tok(data, st, en) {
        Some(m) => scan_from(data, en, args, m),
        None => match parse_usize_tok(data, st, en) {
            Some(v) => {
                let mut args2 = args;
                let ghost a0 = args2@;
                args2.push(v);
                proof {
                    assert(args_view(args2@) =~= args_view(a0).push(v as int));
                }
                if args2.len() >= 3 {
                    (args2, mode)
                } else {
                    scan_from(data, en, args2, mode)
                }
            },
            None => scan_from(data, en, args, mode),
        },
    }
}

impl Minesweeper {
    /// Build a game from the text of the command that started it: the
    /// tokens after the command name select dimensions (capped at 10 rows
    /// and 8 columns), the mine count, and the play mode, with a tenth of
    /// the cells mined by default.
    pub fn from_message(data: &str) -> (g: Minesweeper)
        ensures
            g.wf(),
            !g.field.initialized,
            ({
                let (rows, columns, mines, mode) = parsed_config(data@);
                let crows = if rows < 2 {
                    2int
                } else {
                    rows
                };
                let ccols = if columns < 2 {
                    2int
                } else {
                    columns
                };
                &&& g.mode == mode
                &&& g.field.rows == crows
                &&& g.field.columns == ccols
                &&& g.field.mines == (if mines < 1 {
                    1int
                } else if mines > crows * ccols - 1 {
                    crows * ccols - 1
                } else {
                    mines
                })
            }),
    {
        let n = data.unicode_len();
        let st0 = find_tok_start(data, 0, n);
        let start_rest = if st0 >= n {
            n
        } else {
            find_tok_end(data, st0, n)
        };
        proof {
            let ts = tokens_from(data@, 0);
            if st0 >= n {
                assert(ts =~= Seq::<Seq<char>>::empty());
                assert(tokens_from(data@, n as int) =~= Seq::<Seq<char>>::empty());
            } else {
                assert(ts == seq![data@.subrange(st0 as int, start_rest as int)] + tokens_from(
                    data@,
                    start_rest as int,
                ));
                assert(ts.drop_first() =~= tokens_from(data@, start_rest as int));
            }
        }
        let (args, mode) = scan_from(data, start_rest, Vec::new(), MinesweeperModes::Classic);
        proof {
            assert(args_view(Seq::<usize>::empty()) =~= Seq::<int>::empty());
        }
        let rows: usize = if args.len() >= 1 {
            let a = args[0];
            if a < 10 {
                a
            } else {
                10
            }
        } else {
            10
        };
        let columns: usize = if args.len() >= 2 {
            let a = args[1];
            if a < 8 {
                a
            } else {
                8
            }
        } else {
            8
        };
        proof {
            assert(rows * columns <= 80) by (nonlinear_arith)
                requires
                    0 <= rows <= 10,
                    0 <= columns <= 8,
            ;
            let crows = MineField::clamped_dim(rows);
            let ccols = MineField::clamped_dim(columns);
            assert(crows * ccols <= 80) by (nonlinear_arith)
                requires
                    0 <= crows <= 10,
                    0 <= ccols <= 8,
            ;
        }
        let mines: usize = if args.len() >= 3 {
            args[2]
        } else {
            rows * columns / 10
        };
        Minesweeper { field: MineField::new(rows, columns, mines), mode }
    }
}

} // verus!

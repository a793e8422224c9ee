//! The actor-facing disc-capture game: two fixed identities — the first
//! player named by a mention, the second by a stable identity token —
//! turn enforcement, status text with scores and outcome, and the
//! rendered board.

use vstd::prelude::*;

use crate::counting::count_matching;
use crate::game::{pos, Actor, Board, Coord, InteractResult};
use crate::grid_game::board_view;
use crate::othello::{
    at8, in8, play_legal, played_board, pred_disc, spec_has_move, Othello,
};
use crate::text::{dec_str, u32_to_string, usize_to_string};

verus! {

/// The label a disc is rendered with.
pub open spec fn disc_label(piece: Option<bool>) -> Seq<char> {
    match piece {
        Option::None => " "@,
        Option::Some(p) => if p {
            "⚪"@
        } else {
            "⚫"@
        },
    }
}

/// The one-cell label of the rendered board.
pub fn to_string(piece: Option<bool>) -> (r: &'static str)
    ensures
        r@ == disc_label(piece),
{
    match piece {
        None => " ",
        Some(true) => "⚪",
        Some(false) => "⚫",
    }
}

/// A running disc-capture game between two fixed actors: the first
/// player is identified by a captured mention name, the second by a
/// stable identity token; neither is ever reassigned.
pub struct OthelloGame {
    pub game: Othello,
    pub first_player: String,
    pub second_id: i64,
    pub second_name: String,
}

impl OthelloGame {
    pub open spec fn wf(self) -> bool {
        self.game.wf()
    }

    /// The status text: both names around the score, then either the
    /// outcome line (winner by higher score, or a draw) or the marker of
    /// the player to move.
    pub open spec fn text_of(self) -> Seq<char> {
        let s0 = count_matching(self.game.board@, pred_disc(false));
        let s1 = count_matching(self.game.board@, pred_disc(true));
        let base = self.first_player@ + " "@ + dec_str(s0) + " vs "@ + dec_str(s1) + " "@
            + self.second_name@;
        if self.game.game_over {
            if s0 < s1 {
                base + "\nWinner: "@ + self.second_name@
            } else if s0 == s1 {
                base + "\nDraw game."@
            } else {
                base + "\nWinner: "@ + self.first_player@
            }
        } else if self.game.player {
            base + " ⚪"@
        } else {
            "⚫ "@ + base
        }
    }

    /// The rendered board: a disc label per cell, the callback token the
    /// cell's coordinates as two whitespace-separated integers.
    pub open spec fn board_of(self) -> Seq<Seq<(Seq<char>, Seq<char>)>> {
        Seq::new(
            8,
            |i: int|
                Seq::new(
                    8,
                    |j: int| (disc_label(at8(self.game.board@, (i, j))), dec_str(i) + " "@ + dec_str(j)),
                ),
        )
    }

    /// Start a game on the standard opening position, with the first
    /// player's mention name and the creator's identity fixed for the
    /// whole game. Also hands back the initial text and board.
    pub fn create(first_player: String, second_id: i64, second_name: String) -> (r: (
        OthelloGame,
        String,
        Board,
    ))
        ensures
            r.0.wf(),
            r.0.first_player == first_player,
            r.0.second_id == second_id,
            r.0.second_name == second_name,
            r.0.game.player == false,
            r.0.game.game_over == false,
            forall|t: (int, int)|
                in8(t) ==> #[trigger] at8(r.0.game.board@, t) == (if t == (3int, 3int) {
                    Some(true)
                } else if t == (3int, 4int) {
                    Some(false)
                } else if t == (4int, 3int) {
                    Some(false)
                } else if t == (4int, 4int) {
                    Some(true)
                } else {
                    Option::<bool>::None
                }),
            r.1@ == r.0.text_of(),
            board_view(r.2@) == r.0.board_of(),
    {
        let game = OthelloGame { game: Othello::new(), first_player, second_id, second_name };
        let text = game.get_text();
        let board = game.render();
        (game, text, board)
    }

    /// The status text for the current position.
    pub fn get_text(&self) -> (r: String)
        requires
            self.wf(),
        ensures
            r@ == self.text_of(),
    {
        let scores = self.game.get_score();
        let mut base = self.first_player.clone();
        let mut base2 = String::new();
        base2.append(" ");
        base2.append(u32_to_string(scores.0).as_str());
        base2.append(" vs ");
        base2.append(u32_to_string(scores.1).as_str());
        base2.append(" ");
        base2.append(self.second_name.as_str());
        let mut text = base.concat(base2.as_str());
        if self.game.is_game_over() {
            if scores.0 < scores.1 {
                text.append("\nWinner: ");
                text.append(self.second_name.as_str());
            } else if scores.0 == scores.1 {
                text.append("\nDraw game.");
            } else {
                text.append("\nWinner: ");
                text.append(self.first_player.as_str());
            }
            proof {
                assert(text@ =~= self.text_of());
            }
            text
        } else if self.game.get_current_player() {
            text.append(" ⚪");
            proof {
                assert(text@ =~= self.text_of());
            }
            text
        } else {
            let mut marked = String::new();
            marked.append("⚫ ");
            let r = marked.concat(text.as_str());
            proof {
                assert(r@ =~= self.text_of());
            }
            r
        }
    }

    /// Render the board.
    pub fn render(&self) -> (r: Board)
        requires
            self.wf(),
        ensures
            board_view(r@) == self.board_of(),
    {
        let mut r: Board = Vec::new();
        let mut i: usize = 0;
        while i < 8
            invariant
                self.wf(),
                0 <= i <= 8,
                r@.len() == i,
                forall|i2: int| 0 <= i2 < i ==> board_view(r@)[i2] == #[trigger] self.board_of()[i2],
            decreases 8 - i,
        {
            let row_cells = self.game.iter_row(i);
            let mut row: Vec<(String, String)> = Vec::new();
            let mut j: usize = 0;
            while j < 8
                invariant
                    self.wf(),
                    0 <= i < 8,
                    0 <= j <= 8,
                    row_cells@.len() == 8,
                    forall|c: int|
                        0 <= c < 8 ==> #[trigger] row_cells@[c] == at8(
                            self.game.board@,
                            (i as int, c),
                        ),
                    row@.len() == j,
                    forall|j2: int|
                        0 <= j2 < j ==> (#[trigger] row@[j2].0@, row@[j2].1@) == self.board_of()[i as int][j2],
                decreases 8 - j,
            {
                let piece = row_cells[j];
                let label = String::from_str(to_string(piece));
                let mut token = usize_to_string(i);
                token.append(" ");
                token.append(usize_to_string(j).as_str());
                proof {
                    assert(token@ =~= dec_str(i as int) + " "@ + dec_str(j as int));
                }
                row.push((label, token));
                j = j + 1;
            }
            r.push(row);
            i = i + 1;
            proof {
                assert forall|i2: int|
                    0 <= i2 < i implies board_view(r@)[i2] == #[trigger] self.board_of()[i2] by {
                    if i2 == i - 1 {
                        assert(board_view(r@)[i2] =~= self.board_of()[i2]);
                    }
                }
            }
        }
        proof {
            assert(board_view(r@) =~= self.board_of());
        }
        r
    }

    /// Whether this actor may move now: the first player (to move when
    /// the turn flag is down) is matched by handle against the captured
    /// mention; the second by the stable identity token.
    pub open spec fn spec_is_current_player(self, actor: Actor) -> bool {
        if !self.game.player {
            match actor.username {
                Option::Some(u) => u@ == self.first_player@,
                Option::None => false,
            }
        } else {
            actor.id == self.second_id
        }
    }

    pub fn is_current_player(&self, actor: &Actor) -> (r: bool)
        ensures
            r == self.spec_is_current_player(*actor),
    {
        if !self.game.get_current_player() {
            match &actor.username {
                Some(u) => *u == self.first_player,
                None => false,
            }
        } else {
            actor.id == self.second_id
        }
    }

    /// The sole mutating entry point: only the actor matching the active
    /// player may move, and only a legal placement has any effect. An
    /// accepted move hands back refreshed text and board and whether the
    /// game just ended; anything else is silently rejected.
    pub fn interact(&mut self, coord: Coord, actor: &Actor) -> (r: Option<InteractResult>)
        requires
            old(self).wf(),
            in8(pos(coord)),
        ensures
            final(self).wf(),
            final(self).first_player == old(self).first_player,
            final(self).second_id == old(self).second_id,
            final(self).second_name == old(self).second_name,
            r is Some <==> (old(self).spec_is_current_player(*actor) && play_legal(
                old(self).game.board@,
                pos(coord),
                old(self).game.player,
            )),
            r is None ==> final(self).game.board@ == old(self).game.board@
                && final(self).game.player == old(self).game.player
                && final(self).game.game_over == old(self).game.game_over,
            r is Some ==> (forall|t: (int, int)|
                in8(t) ==> #[trigger] at8(final(self).game.board@, t) == played_board(
                    old(self).game.board@,
                    pos(coord),
                    old(self).game.player,
                    t,
                )),
            r is Some ==> final(self).game.player == (if spec_has_move(
                final(self).game.board@,
                !old(self).game.player,
            ) {
                !old(self).game.player
            } else {
                old(self).game.player
            }),
            r is Some ==> final(self).game.game_over == (old(self).game.game_over || (
            !spec_has_move(final(self).game.board@, !old(self).game.player) && !spec_has_move(
                final(self).game.board@,
                old(self).game.player,
            ))),
            r is Some ==> (r->Some_0).game_end == final(self).game.game_over,
            r is Some ==> (r->Some_0).update_text is Some && ((r->Some_0).update_text->Some_0)@
                == final(self).text_of(),
            r is Some ==> (r->Some_0).update_board is Some && board_view(
                ((r->Some_0).update_board->Some_0)@,
            ) == final(self).board_of(),
    {
        if self.is_current_player(actor) && self.game.play(coord) {
            Some(
                InteractResult {
                    update_text: Some(self.get_text()),
                    update_board: Some(self.render()),
                    game_end: self.game.is_game_over(),
                },
            )
        } else {
            None
        }
    }
}

} // verus!

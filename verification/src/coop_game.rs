//! The cooperative wrapper: decorates a grid game with per-actor move
//! counters, incremented on every accepted move, and — when the game
//! concludes — a narrative summary listing every actor's count and
//! attributing the outcome to the acting actor against the top
//! contributor. Ties on the top count go to the earliest actor to reach
//! it (insertion order), a fixed deterministic choice.

use vstd::prelude::*;

use crate::game::{Actor, Board, Coord, InteractResult};
use crate::grid_game::{board_view, GameState, GridGame};
use crate::text::{dec_str, u32_to_string};

verus! {

/// One actor's line of the closing summary.
pub open spec fn count_line(e: (String, u32)) -> Seq<char> {
    e.0@ + " - "@ + dec_str(e.1 as int) + " moves\n"@
}

/// Every actor's line, in insertion order.
pub open spec fn summary_lines(s: Seq<(String, u32)>) -> Seq<char>
    decreases s.len(),
{
    if s.len() == 0 {
        Seq::empty()
    } else {
        summary_lines(s.drop_last()) + count_line(s.last())
    }
}

/// The highest move count recorded.
pub open spec fn max_count(s: Seq<(String, u32)>) -> int
    decreases s.len(),
{
    if s.len() == 0 {
        0
    } else if s.last().1 > max_count(s.drop_last()) {
        s.last().1 as int
    } else {
        max_count(s.drop_last())
    }
}

/// The index of the top contributor: the earliest actor whose count
/// reaches the maximum.
pub open spec fn top_index(s: Seq<(String, u32)>) -> int
    decreases s.len(),
{
    if s.len() <= 1 {
        0
    } else if s.last().1 > max_count(s.drop_last()) {
        s.len() - 1
    } else {
        top_index(s.drop_last())
    }
}

/// The top contributor holds the maximum count.
pub proof fn lemma_top_is_max(s: Seq<(String, u32)>)
    requires
        s.len() >= 1,
    ensures
        0 <= top_index(s) < s.len(),
        s[top_index(s)].1 == max_count(s),
    decreases s.len(),
{
    if s.len() == 1 {
        assert(s.drop_last().len() == 0);
        assert(max_count(s.drop_last()) == 0);
        assert(top_index(s) == 0);
    } else {
        lemma_top_is_max(s.drop_last());
        assert(s.drop_last()[top_index(s.drop_last())] == s[top_index(s.drop_last())]);
    }
}

/// Does some entry record this name?
pub open spec fn has_name(s: Seq<(String, u32)>, name: Seq<char>) -> bool {
    exists|j: int| 0 <= j < s.len() && (#[trigger] s[j]).0@ == name
}

/// The index recording a name (meaningful when the names are unique and
/// the name is present).
pub open spec fn name_index(s: Seq<(String, u32)>, name: Seq<char>) -> int {
    choose|j: int| 0 <= j < s.len() && (#[trigger] s[j]).0@ == name
}

/// The count recorded under a name.
pub open spec fn name_count(s: Seq<(String, u32)>, name: Seq<char>) -> u32 {
    s[name_index(s, name)].1
}

/// A counter bump that cannot overflow: counts freeze at the top of
/// `u32` rather than wrapping.
pub open spec fn sat_inc(c: u32) -> u32 {
    if c < u32::MAX {
        (c + 1) as u32
    } else {
        c
    }
}

/// The four-way closing line: the acting actor either sealed their own
/// top contribution or took the outcome from the top contributor.
pub open spec fn final_line(actor: Seq<char>, top: Seq<char>, acted_is_top: bool, solved: bool) -> Seq<char> {
    if acted_is_top {
        if solved {
            actor + " has won the game!"@
        } else {
            "Boom, "@ + actor + " is dead!"@
        }
    } else {
        if solved {
            actor + " has snatched it from "@ + top + "!"@
        } else {
            actor + " has ruined it for "@ + top + "!"@
        }
    }
}

/// The whole closing summary for a finished game.
pub open spec fn summary_spec(s: Seq<(String, u32)>, actor: Seq<char>, state: GameState) -> Seq<
    char,
> {
    summary_lines(s) + final_line(
        actor,
        s[top_index(s)].0@,
        name_count(s, actor) == max_count(s),
        state == GameState::Solved,
    )
}

/// Wraps a cooperative grid game and records interaction statistics.
pub struct CoopGame<T: GridGame> {
    pub game: T,
    pub interactions: Vec<(String, u32)>,
}

impl<T: GridGame> CoopGame<T> {
    /// The wrapped game is well-formed, actor names are recorded at most
    /// once, and every recorded count is at least one.
    pub open spec fn wf(self) -> bool {
        &&& self.game.wf()
        &&& forall|i: int, j: int|
            0 <= i < j < self.interactions@.len() ==> (#[trigger] self.interactions@[i]).0@ != (
            #[trigger] self.interactions@[j]).0@
        &&& forall|i: int|
            0 <= i < self.interactions@.len() ==> (#[trigger] self.interactions@[i]).1 >= 1
    }

    /// Wrap a game, with no moves recorded yet; also hands back the
    /// initial text and board.
    pub fn create(game: T) -> (r: (CoopGame<T>, String, Board))
        requires
            game.wf(),
        ensures
            r.0.wf(),
            r.0.game == game,
            r.0.interactions@.len() == 0,
            r.1@ == game.spec_text(),
            board_view(r.2@) == game.spec_board(),
    {
        let text = game.get_text();
        let board = game.render();
        (CoopGame { game, interactions: Vec::new() }, text, board)
    }

    /// Forward a move to the wrapped game. A rejected move (no grid
    /// change) has no effect at all. An accepted move bumps the acting
    /// actor's counter; while the game stays normal the result carries
    /// refreshed text and board, and on the transition to solved or
    /// game-over it carries the closing summary and the end flag.
    pub fn interact(&mut self, coord: Coord, actor: &Actor) -> (r: Option<InteractResult>)
        requires
            old(self).wf(),
            old(self).game.coord_ok(coord),
        ensures
            final(self).wf(),
            r is Some <==> old(self).game.spec_changed(coord),
            old(self).game.spec_step(coord, final(self).game),
            r is None ==> final(self).game == old(self).game && final(self).interactions@ == old(
                self,
            ).interactions@,
            r is Some ==> ({
                let nm = actor.spec_display_name();
                if has_name(old(self).interactions@, nm) {
                    final(self).interactions@ == old(self).interactions@.update(
                        name_index(old(self).interactions@, nm),
                        (
                            old(self).interactions@[name_index(old(self).interactions@, nm)].0,
                            sat_inc(
                                old(self).interactions@[name_index(old(self).interactions@, nm)].1,
                            ),
                        ),
                    )
                } else {
                    &&& final(self).interactions@.len() == old(self).interactions@.len() + 1
                    &&& forall|j: int|
                        0 <= j < old(self).interactions@.len() ==> final(self).interactions@[j]
                            == #[trigger] old(self).interactions@[j]
                    &&& final(self).interactions@.last().0@ == nm
                    &&& final(self).interactions@.last().1 == 1
                }
            }),
            r is Some ==> (r->Some_0).game_end == (final(self).game.spec_state()
                != GameState::Normal),
            r is Some ==> (r->Some_0).update_board is Some && board_view(
                ((r->Some_0).update_board->Some_0)@,
            ) == final(self).game.spec_board(),
            r is Some ==> (r->Some_0).update_text is Some && ((r->Some_0).update_text->Some_0)@
                == (if final(self).game.spec_state() == GameState::Normal {
                final(self).game.spec_text()
            } else {
                summary_spec(
                    final(self).interactions@,
                    actor.spec_display_name(),
                    final(self).game.spec_state(),
                )
            }),
    {
        if !self.game.interact(coord) {
            return None;
        }
        let ghost s0 = self.interactions@;
        let ghost nm = actor.spec_display_name();
        let name = actor.display_name();

        // Record the accepted move under the actor's name.
        let n = self.interactions.len();
        let mut idx: usize = 0;
        let mut found = false;
        while idx < n
            invariant_except_break
                !found,
            invariant
                n == self.interactions@.len(),
                0 <= idx <= n,
                nm == actor.spec_display_name(),
                name@ == nm,
                forall|j: int| 0 <= j < idx ==> (#[trigger] self.interactions@[j]).0@ != nm,
            ensures
                n == self.interactions@.len(),
                nm == actor.spec_display_name(),
                name@ == nm,
                found ==> 0 <= idx < n && self.interactions@[idx as int].0@ == nm,
                !found ==> forall|j: int|
                    0 <= j < n ==> (#[trigger] self.interactions@[j]).0@ != nm,
            decreases n - idx,
        {
            if self.interactions[idx].0.eq(name) {
                found = true;
                break ;
            }
            idx = idx + 1;
        }
        let actor_index: usize;
        if found {
            let c = self.interactions[idx].1;
            let c2 = if c < u32::MAX {
                c + 1
            } else {
                c
            };
            self.interactions[idx].1 = c2;
            actor_index = idx;
            proof {
                assert(has_name(s0, nm)) by {
                    assert((s0[idx as int]).0@ == nm);
                }
                let j = name_index(s0, nm);
                assert(0 <= j < s0.len() && s0[j].0@ == nm);
                assert(j == idx) by {
                    if j != idx {
                        assert(s0[j].0@ != s0[idx as int].0@);
                    }
                }
            }
        } else {
            let entry = (name.clone(), 1u32);
            self.interactions.push(entry);
            actor_index = n;
            proof {
                assert(!has_name(s0, nm)) by {
                    if has_name(s0, nm) {
                        let j = choose|j: int| 0 <= j < s0.len() && (#[trigger] s0[j]).0@ == nm;
                    }
                }
            }
        }
        let ghost s1 = self.interactions@;

        let board = self.game.render();
        let state = self.game.get_state();
        if matches!(state, GameState::Normal) {
            let text = self.game.get_text();
            return Some(InteractResult { update_text: Some(text), update_board: Some(board), game_end: false });
        }

        // The game just concluded: list every actor's count, then close
        // with the attribution line.
        let count = self.interactions[actor_index].1;
        let mut summary = String::new();
        let mut largest: u32 = 0;
        let mut top_idx: usize = 0;
        let mut i: usize = 0;
        let total = self.interactions.len();
        while i < total
            invariant
                total == self.interactions@.len(),
                s1 == self.interactions@,
                1 <= total,
                0 <= i <= total,
                forall|j: int| 0 <= j < total ==> (#[trigger] self.interactions@[j]).1 >= 1,
                summary@ == summary_lines(s1.subrange(0, i as int)),
                largest == max_count(s1.subrange(0, i as int)),
                i > 0 ==> top_idx == top_index(s1.subrange(0, i as int)) && top_idx < i,
                i == 0 ==> largest == 0 && top_idx == 0,
            decreases total - i,
        {
            proof {
                assert(s1.subrange(0, i + 1).drop_last() =~= s1.subrange(0, i as int));
                assert(s1.subrange(0, i + 1).last() == s1[i as int]);
            }
            summary.append(self.interactions[i].0.as_str());
            summary.append(" - ");
            summary.append(u32_to_string(self.interactions[i].1).as_str());
            summary.append(" moves\n");
            proof {
                assert(summary@ =~= summary_lines(s1.subrange(0, i + 1)));
            }
            if self.interactions[i].1 > largest {
                largest = self.interactions[i].1;
                top_idx = i;
            }
            i = i + 1;
        }
        proof {
            assert(s1.subrange(0, total as int) =~= s1);
            lemma_top_is_max(s1);
            assert(name_count(s1, nm) == count) by {
                assert(s1[actor_index as int].0@ == nm);
                assert(has_name(s1, nm)) by {
                    assert((s1[actor_index as int]).0@ == nm);
                }
                let j = name_index(s1, nm);
                assert(0 <= j < s1.len() && s1[j].0@ == nm);
                if j != actor_index as int {
                    assert(s1[j].0@ != s1[actor_index as int].0@);
                }
            }
        }
        let solved = matches!(state, GameState::Solved);
        if count == largest {
            if solved {
                summary.append(name.as_str());
                summary.append(" has won the game!");
            } else {
                summary.append("Boom, ");
                summary.append(name.as_str());
                summary.append(" is dead!");
            }
        } else {
            summary.append(name.as_str());
            if solved {
                summary.append(" has snatched it from ");
            } else {
                summary.append(" has ruined it for ");
            }
            summary.append(self.interactions[top_idx].0.as_str());
            summary.append("!");
        }
        proof {
            assert(summary@ =~= summary_spec(s1, nm, self.game.spec_state()));
        }
        Some(InteractResult { update_text: Some(summary), update_board: Some(board), game_end: true })
    }
}

} // verus!

//! The uniform shape of a grid game: state classification, status text, a
//! rendered board, and a single "interact at coordinate" operation that
//! reports whether the grid visibly changed.

use vstd::prelude::*;

use crate::game::Coord;

verus! {

/// The derived classification of a running game. Never stored: recomputed
/// from the underlying grid on every query.
#[derive(Clone, Copy, PartialEq, Eq, Structural, Debug)]
pub enum GameState {
    Normal,
    Solved,
    GameOver,
}

/// The view of a rendered board: per cell, the label shown and the
/// callback token holding the cell's coordinate.
pub open spec fn board_view(b: Seq<Vec<(String, String)>>) -> Seq<Seq<(Seq<char>, Seq<char>)>> {
    b.map_values(
        |row: Vec<(String, String)>| row@.map_values(|cell: (String, String)| (cell.0@, cell.1@)),
    )
}

/// The uniform shape both engines implement. Each implementation defines
/// its own well-formedness, state classification, status text and board,
/// which the executable methods are held to.
pub trait GridGame: Sized {
    /// The implementation's internal invariant.
    spec fn wf(&self) -> bool;

    /// May `interact` be called at this coordinate?
    spec fn coord_ok(&self, coord: Coord) -> bool;

    /// Would an interaction at this coordinate change the grid? The
    /// result flag of `interact` is exactly this predicate of the
    /// pre-state.
    spec fn spec_changed(&self, coord: Coord) -> bool;

    /// The interaction relation: which post-states an interaction at
    /// `coord` may leave behind. Implementations with randomness (a
    /// lazily seeded grid) state what holds of every outcome; otherwise
    /// the relation pins the post-state exactly, and a rejected move
    /// relates the pre-state only to itself.
    spec fn spec_step(&self, coord: Coord, post: Self) -> bool;

    /// The state classification the implementation derives.
    spec fn spec_state(&self) -> GameState;

    /// The status text the implementation shows.
    spec fn spec_text(&self) -> Seq<char>;

    /// The rendered board the implementation shows.
    spec fn spec_board(&self) -> Seq<Seq<(Seq<char>, Seq<char>)>>;

    /// Derive the game-state classification from the underlying grid.
    fn get_state(&self) -> (r: GameState)
        requires
            self.wf(),
        ensures
            r == self.spec_state(),
    ;

    /// The human-readable status line for the game.
    fn get_text(&self) -> (r: String)
        requires
            self.wf(),
        ensures
            r@ == self.spec_text(),
    ;

    /// Render the board: one (label, coordinate token) pair per cell.
    fn render(&self) -> (r: Vec<Vec<(String, String)>>)
        requires
            self.wf(),
        ensures
            board_view(r@) == self.spec_board(),
    ;

    /// Interact at a coordinate; true iff the grid's externally visible
    /// state changed.
    fn interact(&mut self, coord: Coord) -> (changed: bool)
        requires
            old(self).wf(),
            old(self).coord_ok(coord),
        ensures
            final(self).wf(),
            changed == old(self).spec_changed(coord),
            old(self).spec_step(coord, *final(self)),
            !changed ==> *final(self) == *old(self),
    ;
}

} // verus!

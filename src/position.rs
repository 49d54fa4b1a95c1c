//! The game positions that the search runs on.
use vstd::prelude::*;
use rand::rngs::StdRng;

verus! {

use crate::score::GameResult;

/// The side to move in a position.
#[derive(Clone, Copy, Debug, PartialEq, Eq)]
pub enum Color {
    White,
    Black,
}

/// A position of a two-player game, as the search consumes it. Legal moves are
/// addressed by their index in the position's fixed enumeration order, which must
/// not change between two calls on an unmodified position.
pub trait GamePosition: Sized {
    /// What is needed to take back a move.
    type Undo;

    /// The result of the game, or `None` while it is still going on.
    spec fn result_of(&self) -> Option<GameResult>;

    /// The number of legal moves.
    spec fn move_count(&self) -> usize;

    /// Whether Black is to move.
    spec fn black_to_move(&self) -> bool;

    /// The position that playing the legal move with index `index` leads to.
    spec fn after(&self, index: usize) -> Self;

    /// The position that taking back the move recorded in `undo` leads to.
    spec fn undone(&self, undo: Self::Undo) -> Self;

    /// The player to move.
    fn side_to_move(&self) -> (r: Color)
        ensures
            (r == Color::Black) == self.black_to_move(),
    ;

    /// The result of the game, or `None` while it is still going on.
    fn game_result(&self) -> (r: Option<GameResult>)
        ensures
            r == self.result_of(),
    ;

    /// The number of legal moves.
    fn legal_move_count(&self) -> (r: usize)
        ensures
            r == self.move_count(),
    ;

    /// Plays the legal move with the given index; taking it back restores the position.
    fn do_move(&mut self, index: usize) -> (undo: Self::Undo)
        requires
            index < old(self).move_count(),
        ensures
            *final(self) == old(self).after(index),
            final(self).undone(undo) == *old(self),
    ;

    /// Takes back a move played by `do_move`.
    fn undo_move(&mut self, undo: Self::Undo)
        ensures
            *final(self) == old(self).undone(undo),
    ;

    /// An independent copy of the position.
    fn copy_position(&self) -> (r: Self)
        ensures
            r == *self,
    ;

    /// Plays a random legal move, as a rollout does.
    fn do_random_move(&mut self, rng: &mut StdRng)
        requires
            old(self).move_count() > 0,
        ensures
            exists|i: usize| i < old(self).move_count() && *final(self) == #[trigger] old(self).after(i),
    ;
}

} // verus!

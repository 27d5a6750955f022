//! Moves, the error taxonomy, and the capability contract that any rules
//! engine satisfies: enumerate legal moves, test one move, and produce the
//! successor state of a legal move.

use vstd::prelude::*;

verus! {

/// A move: play a stone at a coordinate, or pass. The acting player is not
/// part of the move; the engine infers it from whose turn it is.
#[derive(Clone, Copy, PartialEq, Eq, Debug)]
pub enum BadukMove {
    Play { coordinates: (usize, usize) },
    Pass,
}

/// The recoverable failures of the move interface: a move that fails a
/// legality check, or a cursor whose recorded move no longer resolves
/// against the tree.
#[derive(Clone, Copy, PartialEq, Eq, Structural, Debug)]
pub enum MoveError {
    IllegalMove,
    MissingMove,
}

/// The capability contract of a rules engine. The game tree and the
/// move-selection agents are written purely against it, so a different
/// board size or rule variant only needs a new conforming implementation.
pub trait StatelessGame: Sized {
    type Move: Copy;

    type StateView;

    /// The abstract state of this game value.
    spec fn sview(&self) -> Self::StateView;

    /// Internal consistency of a game value; established by constructors
    /// and preserved by every successor state.
    spec fn inv(&self) -> bool;

    /// The legal moves of this state, in the engine's enumeration order.
    spec fn legal_moves_spec(&self) -> Seq<Self::Move>;

    /// Whether one move is legal in this state.
    spec fn is_legal_spec(&self, mv: Self::Move) -> bool;

    /// The abstract state that a move leads to.
    spec fn next_view(&self, mv: Self::Move) -> Self::StateView;

    fn list_all_legal_moves(&self) -> (r: Vec<Self::Move>)
        requires
            self.inv(),
        ensures
            r@ == self.legal_moves_spec(),
    ;

    fn is_legal(&self, game_move: &Self::Move) -> (r: bool)
        requires
            self.inv(),
        ensures
            r == self.is_legal_spec(*game_move),
    ;

    fn generate_next_board(&self, game_move: &Self::Move) -> (r: Result<Self, MoveError>)
        requires
            self.inv(),
        ensures
            match r {
                Ok(next) => self.is_legal_spec(*game_move) && next.inv() && next.sview()
                    == self.next_view(*game_move),
                Err(e) => !self.is_legal_spec(*game_move) && e == MoveError::IllegalMove,
            },
    ;

    /// Decidable equality on moves, agreeing with mathematical equality.
    fn move_eq(a: &Self::Move, b: &Self::Move) -> (r: bool)
        ensures
            r == (a == b),
    ;

    /// Every move the enumeration reports is indeed legal.
    proof fn legal_moves_are_legal(&self)
        requires
            self.inv(),
        ensures
            forall|i: int|
                0 <= i < self.legal_moves_spec().len() ==> self.is_legal_spec(
                    #[trigger] self.legal_moves_spec()[i],
                ),
    ;
}

} // verus!

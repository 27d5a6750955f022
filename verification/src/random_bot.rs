//! A pluggable move-selection agent: given read-only access to any state
//! satisfying the `StatelessGame` contract, pick one legal move.

use crate::game::MoveError;
use crate::game::StatelessGame;
use rand::Rng;
use vstd::prelude::*;

verus! {

/// A move-selection policy over any rules engine.
pub trait GameBot: Sized {
    type Game: StatelessGame;

    fn new() -> Self;

    /// Pick a move from the state's own enumeration of legal moves, or
    /// report failure when that enumeration is empty.
    fn select_move(&self, game: &Self::Game) -> (res: Result<
        <Self::Game as StatelessGame>::Move,
        MoveError,
    >)
        requires
            game.inv(),
        ensures
            match res {
                Ok(m) => game.legal_moves_spec().contains(m) && game.is_legal_spec(m),
                Err(e) => game.legal_moves_spec().len() == 0 && e == MoveError::IllegalMove,
            },
    ;
}

/// A stateless agent choosing uniformly at random among the legal moves.
#[verifier::reject_recursive_types(G)]
pub struct RandomBot<G: StatelessGame> {
    _phantom: core::marker::PhantomData<G>,
}

/// Relies on rand's `Rng::gen_range` over the half-open range `0..n`,
/// through the thread-local generator: the sample lies below `n`. The range
/// must be nonempty, as `gen_range` does not return on an empty one.
#[verifier::external_body]
fn random_below(n: usize) -> (res: usize)
    requires
        n > 0,
    ensures
        res < n,
{
    rand::thread_rng().gen_range(0..n)
}

impl<G: StatelessGame> GameBot for RandomBot<G> {
    type Game = G;

    fn new() -> Self {
        RandomBot { _phantom: core::marker::PhantomData }
    }

    fn select_move(&self, game: &G) -> (res: Result<G::Move, MoveError>) {
        let legal_moves = game.list_all_legal_moves();
        if legal_moves.len() == 0 {
            return Err(MoveError::IllegalMove);
        }
        let random_index = random_below(legal_moves.len());
        let chosen = legal_moves[random_index];
        proof {
            game.legal_moves_are_legal();
            assert(game.legal_moves_spec().contains(chosen)) by {
                assert(game.legal_moves_spec()[random_index as int] == chosen);
            }
        }
        Ok(chosen)
    }
}

} // verus!

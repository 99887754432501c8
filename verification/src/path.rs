//! Sequences of moves made one after another from a position.

use crate::game_state::{
    after_move, lemma_move_conserves_balls, legal, position_valid, total_balls, GameState,
};
use crate::move_type::{Move, MoveHistory};
use vstd::prelude::*;

verus! {

/// The position reached from `p` by the moves, made in their order. It
/// means something only where `path_valid` holds.
pub open spec fn path_end(p: Seq<Seq<u8>>, moves: Seq<Move>) -> Seq<Seq<u8>>
    decreases moves.len(),
{
    if moves.len() == 0 {
        p
    } else {
        after_move(
            path_end(p, moves.drop_last()),
            moves.last().from as int,
            moves.last().to as int,
        )
    }
}

/// Whether each of the moves is legal in the position that the moves
/// before it lead to.
pub open spec fn path_valid(p: Seq<Seq<u8>>, moves: Seq<Move>) -> bool
    decreases moves.len(),
{
    moves.len() == 0 || (path_valid(p, moves.drop_last()) && legal(
        path_end(p, moves.drop_last()),
        moves.last().from as int,
        moves.last().to as int,
    ))
}

/// A valid path stays valid when a move that is legal at its end is added,
/// and then ends where that move leads.
pub proof fn lemma_path_push(p: Seq<Seq<u8>>, moves: Seq<Move>, m: Move)
    ensures
        path_valid(p, moves.push(m)) <==> path_valid(p, moves) && legal(
            path_end(p, moves),
            m.from as int,
            m.to as int,
        ),
        path_end(p, moves.push(m)) == after_move(path_end(p, moves), m.from as int, m.to as int),
{
    assert(moves.push(m).drop_last() =~= moves);
}

/// Every beginning of a valid path is a valid path.
pub proof fn lemma_path_prefix(p: Seq<Seq<u8>>, moves: Seq<Move>, n: int)
    requires
        path_valid(p, moves),
        0 <= n <= moves.len(),
    ensures
        path_valid(p, moves.subrange(0, n)),
    decreases moves.len(),
{
    if n == moves.len() {
        assert(moves.subrange(0, n) =~= moves);
    } else {
        lemma_path_prefix(p, moves.drop_last(), n);
        assert(moves.drop_last().subrange(0, n) =~= moves.subrange(0, n));
    }
}

/// Along a valid path the position stays valid, keeps its number of tubes
/// and keeps its number of balls.
pub proof fn lemma_path_conserves(p: Seq<Seq<u8>>, moves: Seq<Move>)
    requires
        path_valid(p, moves),
    ensures
        path_end(p, moves).len() == p.len(),
        total_balls(path_end(p, moves)) == total_balls(p),
        position_valid(p) ==> position_valid(path_end(p, moves)),
    decreases moves.len(),
{
    if moves.len() > 0 {
        lemma_path_conserves(p, moves.drop_last());
        lemma_move_conserves_balls(
            path_end(p, moves.drop_last()),
            moves.last().from as int,
            moves.last().to as int,
        );
    }
}

impl GameState {
    /// Makes the moves of a history one after another, starting from this
    /// position. `None` as soon as a move is not legal where it is made.
    pub fn replay(&self, history: &MoveHistory) -> (r: Option<GameState>)
        requires
            self.wf(),
        ensures
            r.is_some() <==> path_valid(self@, history@),
            r.is_some() ==> r.unwrap().wf() && r.unwrap()@ == path_end(self@, history@),
    {
        let mut state = self.clone();
        let mut i: usize = 0;
        assert(history@.subrange(0, 0) =~= Seq::<Move>::empty());
        while i < history.len()
            invariant
                i <= history@.len(),
                state.wf(),
                path_valid(self@, history@.subrange(0, i as int)),
                state@ == path_end(self@, history@.subrange(0, i as int)),
            decreases history@.len() - i,
        {
            let m = *history.get(i).unwrap();
            proof {
                assert(history@.subrange(0, i + 1) =~= history@.subrange(0, i as int).push(m));
                lemma_path_push(self@, history@.subrange(0, i as int), m);
            }
            if !state.is_legal_move(m.from as usize, m.to as usize) {
                proof {
                    if path_valid(self@, history@) {
                        lemma_path_prefix(self@, history@, i + 1);
                    }
                }
                return None;
            }
            state.apply_move(m);
            i = i + 1;
        }
        assert(history@.subrange(0, i as int) =~= history@);
        Some(state)
    }
}

} // verus!

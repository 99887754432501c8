//! Moves, and the sequence of moves that led to a position.

use vstd::prelude::*;
use vstd::std_specs::cmp::PartialEqSpecImpl;

verus! {

/// One ball taken from the top of tube `from` and put on tube `to`. The
/// value says nothing of whether the move is allowed: that depends on the
/// position it is applied to.
#[derive(Clone, Copy, Debug, PartialEq, Eq, Hash, Structural)]
pub struct Move {
    pub from: u8,
    pub to: u8,
}

/// The longest sequence of moves that a history can record.
pub const MOVE_HISTORY_CAPACITY: usize = 200;

/// The moves made from the initial position, oldest first. Moves are only
/// ever appended.
#[derive(Debug)]
pub struct MoveHistory {
    pub moves: Vec<Move>,
}

impl View for MoveHistory {
    type V = Seq<Move>;

    open spec fn view(&self) -> Seq<Move> {
        self.moves@
    }
}

impl MoveHistory {
    /// The history is within its capacity.
    pub open spec fn wf(&self) -> bool {
        self@.len() <= MOVE_HISTORY_CAPACITY
    }

    pub fn new() -> (h: MoveHistory)
        ensures
            h.wf(),
            h@ == Seq::<Move>::empty(),
    {
        MoveHistory { moves: Vec::new() }
    }

    /// Appends a move.
    pub fn push(&mut self, m: Move)
        requires
            old(self)@.len() < MOVE_HISTORY_CAPACITY,
        ensures
            final(self).wf(),
            final(self)@ == old(self)@.push(m),
    {
        self.moves.push(m);
    }

    /// The move at `index`, counting from the oldest, if there is one.
    pub fn get(&self, index: usize) -> (r: Option<&Move>)
        ensures
            r == if index < self@.len() {
                Some(&self@[index as int])
            } else {
                None
            },
    {
        if index >= self.moves.len() {
            None
        } else {
            Some(&self.moves[index])
        }
    }

    pub fn len(&self) -> (n: usize)
        ensures
            n == self@.len(),
    {
        self.moves.len()
    }
}

impl Clone for MoveHistory {
    fn clone(&self) -> (h: MoveHistory)
        ensures
            h@ == self@,
    {
        let mut moves: Vec<Move> = Vec::new();
        let mut i: usize = 0;
        while i < self.moves.len()
            invariant
                i <= self.moves@.len(),
                moves@ == self.moves@.subrange(0, i as int),
            decreases self.moves@.len() - i,
        {
            moves.push(self.moves[i]);
            assert(moves@ =~= self.moves@.subrange(0, i + 1));
            i = i + 1;
        }
        assert(moves@ =~= self.moves@);
        MoveHistory { moves }
    }
}

impl PartialEqSpecImpl for MoveHistory {
    open spec fn obeys_eq_spec() -> bool {
        true
    }

    /// Two histories are equal when they hold the same moves in the same
    /// order.
    open spec fn eq_spec(&self, other: &MoveHistory) -> bool {
        self@ == other@
    }
}

impl PartialEq for MoveHistory {
    fn eq(&self, other: &MoveHistory) -> (b: bool) {
        if self.moves.len() != other.moves.len() {
            return false;
        }
        let mut i: usize = 0;
        while i < self.moves.len()
            invariant
                i <= self.moves@.len(),
                self.moves@.len() == other.moves@.len(),
                forall|k: int| 0 <= k < i ==> #[trigger] self.moves@[k] == other.moves@[k],
            decreases self.moves@.len() - i,
        {
            if self.moves[i] != other.moves[i] {
                return false;
            }
            i = i + 1;
        }
        assert(self@ =~= other@);
        true
    }
}

impl Eq for MoveHistory {

}

} // verus!

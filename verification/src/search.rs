//! The search: breadth-first exploration of the positions that can be
//! reached from an initial position, until one of them is solved or none
//! is left within the depth bound.

use crate::explore::{
    after_expand, after_take, at_depth, at_level, entry_ok, exploration_start, explored,
    lemma_exhausted_means_unsolvable, lemma_expand_explored, lemma_first_solved_is_shortest,
    lemma_start_explored, lemma_take_explored, Exploration,
};
use crate::frontier::{entry_views, Frontier, GameStateWithHistory};
use crate::game_state::{position_solved, GameState};
use crate::move_type::{Move, MoveHistory};
use crate::path::{path_end, path_valid};
use crate::visited::VisitedSet;
use crate::worker::{depth_limit, new_successors, Worker, MAX_SEARCH_DEPTH};
use vstd::multiset::Multiset;
use vstd::prelude::*;

verus! {

broadcast use {
    vstd::seq_lib::group_to_multiset_ensures,
    vstd::multiset::group_multiset_properties,
};

/// How a search ended.
#[derive(Debug)]
pub enum SearchOutcome {
    /// A solved position was reached by these moves.
    Solved(MoveHistory),
    /// No solved position can be reached within the depth bound.
    NoSolution,
}

/// What a search reports: how it ended, how many tubes the puzzle has,
/// and how many different positions the search met.
#[derive(Debug)]
pub struct SearchReport {
    pub outcome: SearchOutcome,
    pub tubes: usize,
    pub visited: usize,
}

/// The moves lead from `start` to a solved position, each of them legal
/// where it is made, and are no more than `limit`.
pub open spec fn is_solution(start: Seq<Seq<u8>>, limit: nat, moves: Seq<Move>) -> bool {
    &&& moves.len() <= limit
    &&& path_valid(start, moves)
    &&& position_solved(path_end(start, moves))
}

/// What a search may report of a start and a depth bound: a solution
/// that is as short as any path to a solved position, or that there is
/// no solution within the bound.
pub open spec fn outcome_ok(start: Seq<Seq<u8>>, limit: nat, outcome: SearchOutcome) -> bool {
    match outcome {
        SearchOutcome::Solved(h) => {
            &&& h.wf()
            &&& is_solution(start, limit, h@)
            &&& forall|g: Seq<Move>|
                path_valid(start, g) && position_solved(#[trigger] path_end(start, g)) ==> h@.len()
                    <= g.len()
        },
        SearchOutcome::NoSolution => forall|g: Seq<Move>| !#[trigger] is_solution(start, limit, g),
    }
}

/// Two searches from one position with one depth bound agree: both find
/// a solution or neither does, and where they do, the two solutions are
/// of one length.
pub proof fn lemma_searches_agree(
    start: Seq<Seq<u8>>,
    limit: nat,
    first: SearchOutcome,
    second: SearchOutcome,
)
    requires
        outcome_ok(start, limit, first),
        outcome_ok(start, limit, second),
    ensures
        first is Solved <==> second is Solved,
        first is Solved ==> first->Solved_0@.len() == second->Solved_0@.len(),
{
    if let SearchOutcome::Solved(h) = first {
        assert(is_solution(start, limit, h@));
        if let SearchOutcome::Solved(g) = second {
            assert(position_solved(path_end(start, h@)));
            assert(position_solved(path_end(start, g@)));
        }
    }
    if let SearchOutcome::Solved(g) = second {
        assert(is_solution(start, limit, g@));
    }
}

/// A position that is solved already is reported as solved by no moves.
pub proof fn lemma_solved_start_needs_no_move(
    start: Seq<Seq<u8>>,
    limit: nat,
    outcome: SearchOutcome,
)
    requires
        position_solved(start),
        outcome_ok(start, limit, outcome),
    ensures
        outcome is Solved,
        outcome->Solved_0@.len() == 0,
{
    let none = Seq::<Move>::empty();
    assert(path_valid(start, none));
    assert(path_end(start, none) == start);
    assert(is_solution(start, limit, none));
}

/// The entries that a worker and the frontier hold between them.
pub open spec fn all_pending(worker: Worker, frontier: Frontier) -> Multiset<
    (Seq<Seq<u8>>, Seq<Move>),
> {
    entry_views(worker.input@).to_multiset().add(entry_views(worker.output@).to_multiset()).add(
        frontier@,
    )
}

/// The entries that the worker has taken lie in the order of the lengths
/// of their histories, and no entry elsewhere has a shorter history than
/// one of them.
pub open spec fn in_order(
    input: Seq<(Seq<Seq<u8>>, Seq<Move>)>,
    rest: Multiset<(Seq<Seq<u8>>, Seq<Move>)>,
) -> bool {
    &&& forall|i: int, j: int|
        0 <= i <= j < input.len() ==> (#[trigger] input[i]).1.len() <= (#[trigger] input[j]).1.len()
    &&& forall|i: int, v: (Seq<Seq<u8>>, Seq<Move>)|
        0 <= i < input.len() && #[trigger] rest.contains(v) ==> (#[trigger] input[i]).1.len()
            <= v.1.len()
}

impl GameState {
    /// Searches for a solution of at most `MAX_SEARCH_DEPTH` moves.
    pub fn search_for_solution(&self) -> (r: SearchReport)
        requires
            self.wf(),
        ensures
            r.tubes == self@.len(),
            r.visited >= 1,
            outcome_ok(self@, depth_limit(MAX_SEARCH_DEPTH), r.outcome),
    {
        self.search_with_depth(MAX_SEARCH_DEPTH)
    }

    /// Searches breadth first for a sequence of legal moves that leads to
    /// a solved position. Paths longer than `max_depth`, or than a history
    /// can record, are not followed. The solution found is as short as
    /// any; if there is none within the bound, the search says so.
    pub fn search_with_depth(&self, max_depth: usize) -> (r: SearchReport)
        requires
            self.wf(),
        ensures
            r.tubes == self@.len(),
            r.visited >= 1,
            outcome_ok(self@, depth_limit(max_depth), r.outcome),
    {
        let mut visited = VisitedSet::new();
        let mut frontier = Frontier::new();
        let mut worker = Worker::new();
        let first = visited.claim(self);
        let start = GameStateWithHistory(self.clone(), MoveHistory::new());
        worker.input.push_back(start);
        let ghost mut x = exploration_start(self@, depth_limit(max_depth));
        proof {
            self.lemma_wf_valid();
            lemma_start_explored(self@, depth_limit(max_depth));
            assert(entry_views(worker.input@) =~= seq![(self@, Seq::<Move>::empty())]);
            assert(entry_views(worker.output@) =~= Seq::empty());
            assert(seq![(self@, Seq::<Move>::empty())] =~= Seq::<
                (Seq<Seq<u8>>, Seq<Move>),
            >::empty().push((self@, Seq::<Move>::empty())));
            assert(all_pending(worker, frontier) =~= x.pending);
        }
        loop
            invariant
                self.wf(),
                worker.wf(),
                frontier.wf(),
                visited.wf(),
                x.start == self@,
                x.limit == depth_limit(max_depth),
                x.visited == visited@,
                x.pending == all_pending(worker, frontier),
                x.level <= x.limit,
                visited@.len() >= 1,
                explored(x, None),
                in_order(
                    entry_views(worker.input@),
                    entry_views(worker.output@).to_multiset().add(frontier@),
                ),
            decreases x.limit + 1 - x.level, at_level(x),
        {
            if worker.input.len() == 0 {
                worker.sync(&mut frontier);
                proof {
                    assert(entry_views(worker.output@) =~= Seq::empty());
                    assert(all_pending(worker, frontier) =~= x.pending);
                    lemma_synced_in_order(worker, frontier);
                }
                if worker.input.len() == 0 {
                    proof {
                        assert(entry_views(worker.input@) =~= Seq::empty());
                        assert(x.pending.len() == 0);
                        assert forall|g: Seq<Move>|
                            !#[trigger] is_solution(self@, depth_limit(max_depth), g) by {
                            if is_solution(self@, depth_limit(max_depth), g) {
                                lemma_exhausted_means_unsolvable(x, g);
                            }
                        }
                    }
                    return SearchReport {
                        outcome: SearchOutcome::NoSolution,
                        tubes: self.tube_count(),
                        visited: visited.len(),
                    };
                }
            }
            let ghost before = x;
            let ghost input_before = worker.input@;
            let current = worker.take_next().unwrap();
            proof {
                lemma_taken_is_first(worker, frontier, input_before, current@);
                assert(before.pending.contains(current@));
                assert(entry_ok(before, current@));
                lemma_take_explored(x, current@);
                x = after_take(x, current@);
                lemma_take_decreases(before, current@);
                assert(x.pending =~= all_pending(worker, frontier));
                lemma_rest_in_order(input_before, worker, frontier, x);
            }
            if current.0.is_solved() {
                proof {
                    assert forall|g: Seq<Move>|
                        path_valid(self@, g) && position_solved(
                            #[trigger] path_end(self@, g),
                        ) implies current.1@.len() <= g.len() by {
                        lemma_first_solved_is_shortest(x, current@, g);
                    }
                }
                let GameStateWithHistory(_, history) = current;
                return SearchReport {
                    outcome: SearchOutcome::Solved(history),
                    tubes: self.tube_count(),
                    visited: visited.len(),
                };
            }
            let ghost taken = x;
            let ghost output_before = worker.output@;
            worker.expand(&current, &mut visited, max_depth);
            proof {
                lemma_expand_explored(x, current@);
                x = after_expand(x, current@);
                lemma_expand_keeps_level(taken, current@);
                assert forall|i: int| 0 <= i < worker.input@.len() implies taken.pending.contains(
                    #[trigger] entry_views(worker.input@)[i],
                ) by {
                    assert(entry_views(worker.input@).contains(entry_views(worker.input@)[i]));
                }
                lemma_expanded_in_order(output_before, worker, frontier, taken, current@);
                vstd::seq_lib::lemma_multiset_commutative(
                    entry_views(output_before),
                    new_successors(taken.visited, current.0@, current.1@),
                );
                assert(x.visited =~= visited@);
                assert(x.pending =~= all_pending(worker, frontier));
            }
        }
    }
}

/// After an exchange with the frontier from an empty input, the entries
/// taken are in order.
proof fn lemma_synced_in_order(worker: Worker, frontier: Frontier)
    requires
        worker.output@.len() == 0,
        forall|i: int, j: int|
            0 <= i <= j < worker.input@.len() ==> (#[trigger] worker.input@[i]).1@.len() <= (
            #[trigger] worker.input@[j]).1@.len(),
        forall|i: int, v: (Seq<Seq<u8>>, Seq<Move>)|
            0 <= i < worker.input@.len() && #[trigger] frontier@.contains(v) ==> (
            #[trigger] worker.input@[i]).1@.len() <= v.1.len(),
    ensures
        in_order(
            entry_views(worker.input@),
            entry_views(worker.output@).to_multiset().add(frontier@),
        ),
{
    let input = entry_views(worker.input@);
    let rest = entry_views(worker.output@).to_multiset().add(frontier@);
    assert(entry_views(worker.output@) =~= Seq::empty());
    assert forall|i: int, j: int| 0 <= i <= j < input.len() implies (#[trigger] input[i]).1.len() <= (
    #[trigger] input[j]).1.len() by {
        assert(input[i] == worker.input@[i]@);
        assert(input[j] == worker.input@[j]@);
    }
    assert forall|i: int, v: (Seq<Seq<u8>>, Seq<Move>)|
        0 <= i < input.len() && #[trigger] rest.contains(v) implies (#[trigger] input[i]).1.len()
        <= v.1.len() by {
        assert(input[i] == worker.input@[i]@);
        assert(frontier@.contains(v));
    }
}

/// The entry taken from an input in order has a history as short as any
/// entry that awaited expansion.
proof fn lemma_taken_is_first(
    worker: Worker,
    frontier: Frontier,
    input_before: Seq<GameStateWithHistory>,
    e: (Seq<Seq<u8>>, Seq<Move>),
)
    requires
        input_before.len() > 0,
        e == input_before[0]@,
        worker.input@ == input_before.drop_first(),
        in_order(
            entry_views(input_before),
            entry_views(worker.output@).to_multiset().add(frontier@),
        ),
    ensures
        entry_views(input_before).to_multiset().contains(e),
        entry_views(worker.input@).to_multiset() == entry_views(input_before).to_multiset().remove(
            e,
        ),
        forall|y: (Seq<Seq<u8>>, Seq<Move>)| #[trigger]
            entry_views(input_before).to_multiset().add(
                entry_views(worker.output@).to_multiset(),
            ).add(frontier@).contains(y) ==> e.1.len() <= y.1.len(),
{
    let input = entry_views(input_before);
    let rest = entry_views(worker.output@).to_multiset().add(frontier@);
    assert(input[0] == e);
    assert(input.contains(e));
    assert(entry_views(worker.input@) =~= input.remove(0));
    assert forall|y: (Seq<Seq<u8>>, Seq<Move>)| #[trigger]
        input.to_multiset().add(entry_views(worker.output@).to_multiset()).add(frontier@).contains(
            y,
        ) implies e.1.len() <= y.1.len() by {
        if input.to_multiset().contains(y) {
            assert(input.contains(y));
            let j = choose|j: int| 0 <= j < input.len() && input[j] == y;
            assert(input[0].1.len() <= input[j].1.len());
        } else {
            assert(rest.contains(y));
            assert(input[0].1.len() <= y.1.len());
        }
    }
}

/// Taking an entry at the level being expanded leaves fewer entries at
/// that level.
proof fn lemma_take_decreases(x: Exploration, e: (Seq<Seq<u8>>, Seq<Move>))
    requires
        x.pending.contains(e),
        entry_ok(x, e),
    ensures
        e.1.len() == x.level ==> at_level(after_take(x, e)) < at_level(x),
        e.1.len() != x.level ==> e.1.len() == x.level + 1,
{
    if e.1.len() == x.level {
        let keep = at_depth(x.level);
        assert(keep(e));
        assert(x.pending.filter(keep).contains(e));
        assert(x.pending.remove(e).filter(keep) =~= x.pending.filter(keep).remove(e));
    }
}

/// What is left of the input after an entry was taken is in order.
proof fn lemma_rest_in_order(
    input_before: Seq<GameStateWithHistory>,
    worker: Worker,
    frontier: Frontier,
    x: Exploration,
)
    requires
        input_before.len() > 0,
        worker.input@ == input_before.drop_first(),
        in_order(
            entry_views(input_before),
            entry_views(worker.output@).to_multiset().add(frontier@),
        ),
    ensures
        in_order(
            entry_views(worker.input@),
            entry_views(worker.output@).to_multiset().add(frontier@),
        ),
{
    let before = entry_views(input_before);
    let input = entry_views(worker.input@);
    let rest = entry_views(worker.output@).to_multiset().add(frontier@);
    assert forall|i: int, j: int| 0 <= i <= j < input.len() implies (#[trigger] input[i]).1.len() <= (
    #[trigger] input[j]).1.len() by {
        assert(input[i] == before[i + 1]);
        assert(input[j] == before[j + 1]);
    }
    assert forall|i: int, v: (Seq<Seq<u8>>, Seq<Move>)|
        0 <= i < input.len() && #[trigger] rest.contains(v) implies (#[trigger] input[i]).1.len()
        <= v.1.len() by {
        assert(input[i] == before[i + 1]);
    }
}

/// An expansion adds no entry at the level being expanded.
proof fn lemma_expand_keeps_level(x: Exploration, e: (Seq<Seq<u8>>, Seq<Move>))
    requires
        x.level == e.1.len(),
    ensures
        at_level(after_expand(x, e)) == at_level(x),
{
    if e.1.len() < x.limit {
        let keep = at_depth(x.level);
        let made = new_successors(x.visited, e.0, e.1);
        assert forall|v: (Seq<Seq<u8>>, Seq<Move>)| made.to_multiset().contains(v) implies !keep(
            v,
        ) by {
            assert(made.contains(v));
            let j = choose|j: int| 0 <= j < made.len() && made[j] == v;
            assert(v.1.len() == e.1.len() + 1);
        }
        assert(x.pending.add(made.to_multiset()).filter(keep) =~= x.pending.filter(keep));
    }
}

/// After an expansion the input is still in order: what the expansion
/// produced has histories one move longer than the entry expanded.
proof fn lemma_expanded_in_order(
    output_before: Seq<GameStateWithHistory>,
    worker: Worker,
    frontier: Frontier,
    x: Exploration,
    e: (Seq<Seq<u8>>, Seq<Move>),
)
    requires
        x.level == e.1.len(),
        forall|i: int|
            0 <= i < worker.input@.len() ==> x.pending.contains(#[trigger] entry_views(worker.input@)[i]),
        forall|f: (Seq<Seq<u8>>, Seq<Move>)| #[trigger] x.pending.contains(f) ==> entry_ok(x, f),
        in_order(
            entry_views(worker.input@),
            entry_views(output_before).to_multiset().add(frontier@),
        ),
        entry_views(worker.output@) == entry_views(output_before) || entry_views(worker.output@)
            == entry_views(output_before) + new_successors(x.visited, e.0, e.1),
    ensures
        in_order(
            entry_views(worker.input@),
            entry_views(worker.output@).to_multiset().add(frontier@),
        ),
{
    let input = entry_views(worker.input@);
    let rest = entry_views(worker.output@).to_multiset().add(frontier@);
    let rest_before = entry_views(output_before).to_multiset().add(frontier@);
    let made = new_successors(x.visited, e.0, e.1);
    if entry_views(worker.output@) != entry_views(output_before) {
        vstd::seq_lib::lemma_multiset_commutative(entry_views(output_before), made);
        assert forall|i: int, v: (Seq<Seq<u8>>, Seq<Move>)|
            0 <= i < input.len() && #[trigger] rest.contains(v) implies (#[trigger] input[i]).1.len()
            <= v.1.len() by {
            if !rest_before.contains(v) {
                assert(made.to_multiset().contains(v));
                assert(made.contains(v));
                let j = choose|j: int| 0 <= j < made.len() && made[j] == v;
                assert(v.1.len() == e.1.len() + 1);
                assert(x.pending.contains(input[i]));
                assert(entry_ok(x, input[i]));
            }
        }
    }
}

} // verus!

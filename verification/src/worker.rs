//! A search worker: the entries it has taken from the frontier, those it
//! has produced, and the steps that expand a position and exchange
//! entries with the frontier.

use crate::frontier::{entry_views, Frontier, GameStateWithHistory};
use crate::game_state::{
    after_move, legal_moves, lemma_filter_step, lemma_generated_moves_are_legal,
    lemma_key_injective, lemma_legal_moves_distinct, lemma_move_conserves_balls,
    lemma_moves_lead_apart, position_key, position_valid,
};
use crate::move_type::{Move, MOVE_HISTORY_CAPACITY};
use crate::visited::VisitedSet;
use std::collections::VecDeque;
use vstd::prelude::*;

verus! {

broadcast use {
    vstd::seq_lib::group_to_multiset_ensures,
    vstd::multiset::group_multiset_properties,
};

/// The longest path that the search follows unless told otherwise.
pub const MAX_SEARCH_DEPTH: usize = 200;

/// How many entries a worker takes from the frontier at once.
pub const THREAD_SYNC_INTERVAL: usize = 8192;

/// The depth bound in force: the one asked for, but never more than a
/// history can record.
pub open spec fn depth_limit(max_depth: usize) -> nat {
    if max_depth <= MOVE_HISTORY_CAPACITY {
        max_depth as nat
    } else {
        MOVE_HISTORY_CAPACITY as nat
    }
}

/// The test that picks the moves of `p` that lead to a position whose key
/// is not among `visited`.
pub open spec fn leads_to_new(visited: Set<Seq<u8>>, p: Seq<Seq<u8>>) -> spec_fn(Move) -> bool {
    |m: Move| !visited.contains(position_key(after_move(p, m.from as int, m.to as int)))
}

/// The entry that a move makes of the position `p` reached by `history`.
pub open spec fn successor_of(p: Seq<Seq<u8>>, history: Seq<Move>) -> spec_fn(Move) -> (
    Seq<Seq<u8>>,
    Seq<Move>,
) {
    |m: Move| (after_move(p, m.from as int, m.to as int), history.push(m))
}

/// The entries that expanding `p` produces: one for each legal move that
/// leads to a position not yet visited, in the order of the legal moves.
pub open spec fn new_successors(visited: Set<Seq<u8>>, p: Seq<Seq<u8>>, history: Seq<Move>) -> Seq<
    (Seq<Seq<u8>>, Seq<Move>),
> {
    legal_moves(p).filter(leads_to_new(visited, p)).map_values(successor_of(p, history))
}

/// The keys of the positions that the given moves lead to from `p`.
pub open spec fn successor_keys(p: Seq<Seq<u8>>, moves: Seq<Move>) -> Set<Seq<u8>> {
    Set::new(
        |k: Seq<u8>|
            exists|i: int|
                0 <= i < moves.len() && k == position_key(
                    after_move(p, (#[trigger] moves[i]).from as int, moves[i].to as int),
                ),
    )
}

/// One worker of the search. `input` holds the entries it took from the
/// frontier and has yet to expand, oldest first; `output` holds the
/// entries it produced and has yet to hand to the frontier.
pub struct Worker {
    pub input: VecDeque<GameStateWithHistory>,
    pub output: VecDeque<GameStateWithHistory>,
}

impl Worker {
    /// Every entry that the worker holds is well-formed.
    pub open spec fn wf(&self) -> bool {
        &&& forall|i: int| 0 <= i < self.input@.len() ==> (#[trigger] self.input@[i]).wf()
        &&& forall|i: int| 0 <= i < self.output@.len() ==> (#[trigger] self.output@[i]).wf()
    }

    /// A worker that holds no entry.
    pub fn new() -> (w: Worker)
        ensures
            w.wf(),
            w.input@.len() == 0,
            w.output@.len() == 0,
    {
        Worker { input: VecDeque::new(), output: VecDeque::new() }
    }

    /// The oldest of the entries taken from the frontier, if one is left.
    pub fn take_next(&mut self) -> (r: Option<GameStateWithHistory>)
        requires
            old(self).wf(),
        ensures
            final(self).wf(),
            final(self).output@ == old(self).output@,
            old(self).input@.len() == 0 ==> r.is_none() && final(self).input@ == old(self).input@,
            old(self).input@.len() > 0 ==> {
                &&& r == Some(old(self).input@[0])
                &&& r.unwrap().wf()
                &&& final(self).input@ == old(self).input@.drop_first()
            },
    {
        let r = self.input.pop_front();
        proof {
            if old(self).input@.len() > 0 {
                assert(self.input@ =~= old(self).input@.drop_first());
                assert forall|i: int| 0 <= i < self.input@.len() implies (
                #[trigger] self.input@[i]).wf() by {
                    assert(self.input@[i] == old(self).input@[i + 1]);
                }
            }
        }
        r
    }

    /// Exchanges entries with the frontier: hands it all entries that the
    /// worker produced, then takes from it entries to expand, shortest
    /// path first, until the worker holds `THREAD_SYNC_INTERVAL` of them
    /// or the frontier is empty. No entry is lost or made.
    pub fn sync(&mut self, frontier: &mut Frontier)
        requires
            old(self).wf(),
            old(frontier).wf(),
        ensures
            final(self).wf(),
            final(frontier).wf(),
            final(self).output@.len() == 0,
            entry_views(final(self).input@).to_multiset().add(final(frontier)@) == entry_views(
                old(self).input@,
            ).to_multiset().add(entry_views(old(self).output@).to_multiset()).add(old(frontier)@),
            final(self).input@.len() >= old(self).input@.len(),
            final(self).input@.subrange(0, old(self).input@.len() as int) == old(self).input@,
            final(self).input@.len() >= THREAD_SYNC_INTERVAL || final(frontier)@.len() == 0,
            final(self).input@.len() <= THREAD_SYNC_INTERVAL
                || final(self).input@.len() == old(self).input@.len(),
            forall|i: int, j: int|
                old(self).input@.len() <= i <= j < final(self).input@.len()
                    ==> (#[trigger] final(self).input@[i]).1@.len()
                    <= (#[trigger] final(self).input@[j]).1@.len(),
            forall|i: int, x: (Seq<Seq<u8>>, Seq<Move>)|
                old(self).input@.len() <= i < final(self).input@.len()
                    && #[trigger] final(frontier)@.contains(x)
                    ==> (#[trigger] final(self).input@[i]).1@.len() <= x.1.len(),
    {
        let ghost given = entry_views(self.output@).to_multiset();
        while self.output.len() > 0
            invariant
                self.wf(),
                frontier.wf(),
                self.input@ == old(self).input@,
                entry_views(self.output@).to_multiset().add(frontier@) == given.add(
                    old(frontier)@,
                ),
            decreases self.output@.len(),
        {
            let ghost out_before = self.output@;
            let ghost f_before = frontier@;
            let entry = self.output.pop_front().unwrap();
            proof {
                assert(self.output@ =~= out_before.remove(0));
                assert(entry_views(out_before.remove(0)) =~= entry_views(out_before).remove(0));
                assert(entry_views(out_before)[0] == entry@);
                assert(entry_views(out_before).contains(entry@));
                assert forall|i: int| 0 <= i < self.output@.len() implies (
                #[trigger] self.output@[i]).wf() by {
                    assert(self.output@[i] == out_before[i + 1]);
                }
            }
            frontier.push(entry);
            proof {
                assert(entry_views(self.output@).to_multiset().add(frontier@) =~= entry_views(
                    out_before,
                ).to_multiset().add(f_before));
            }
        }
        proof {
            assert(entry_views(self.output@) =~= Seq::empty());
            assert(entry_views(self.output@).to_multiset() =~= vstd::multiset::Multiset::empty());
            assert(frontier@ =~= given.add(old(frontier)@));
        }
        let ghost kept = old(self).input@.len();
        let ghost all = entry_views(old(self).input@).to_multiset().add(given).add(
            old(frontier)@,
        );
        assert(entry_views(self.input@).to_multiset().add(frontier@) =~= all);
        let mut exhausted = false;
        while !exhausted && self.input.len() < THREAD_SYNC_INTERVAL
            invariant
                self.wf(),
                frontier.wf(),
                self.output@.len() == 0,
                kept == old(self).input@.len(),
                self.input@.len() >= kept,
                self.input@.subrange(0, kept as int) == old(self).input@,
                entry_views(self.input@).to_multiset().add(frontier@) == all,
                exhausted ==> frontier@.len() == 0,
                self.input@.len() <= THREAD_SYNC_INTERVAL || self.input@.len() == kept,
                forall|i: int, j: int|
                    kept <= i <= j < self.input@.len() ==> (#[trigger] self.input@[i]).1@.len() <= (
                    #[trigger] self.input@[j]).1@.len(),
                forall|i: int, x: (Seq<Seq<u8>>, Seq<Move>)|
                    kept <= i < self.input@.len() && #[trigger] frontier@.contains(x) ==> (
                    #[trigger] self.input@[i]).1@.len() <= x.1.len(),
            decreases
                    if exhausted {
                        0int
                    } else {
                        1 + THREAD_SYNC_INTERVAL - self.input@.len()
                    },
        {
            let ghost in_before = self.input@;
            let ghost f_before = frontier@;
            match frontier.pop() {
                Some(entry) => {
                    self.input.push_back(entry);
                    proof {
                        assert(self.input@.subrange(0, kept as int) =~= in_before.subrange(
                            0,
                            kept as int,
                        ));
                        assert(entry_views(self.input@) =~= entry_views(in_before).push(entry@));
                        assert(entry_views(self.input@).to_multiset().add(frontier@) =~= entry_views(
                            in_before,
                        ).to_multiset().add(f_before));
                        assert forall|x: (Seq<Seq<u8>>, Seq<Move>)| #[trigger]
                            frontier@.contains(x) implies f_before.contains(x) by {}
                    }
                },
                None => {
                    exhausted = true;
                },
            }
        }
    }

    /// Expands an entry: makes each legal move of its position in turn,
    /// claims the position that the move leads to, and keeps an entry for
    /// it where the claim was the first. An entry whose history has
    /// reached the depth bound is not expanded at all.
    pub fn expand(
        &mut self,
        current: &GameStateWithHistory,
        visited: &mut VisitedSet,
        max_depth: usize,
    )
        requires
            old(self).wf(),
            current.wf(),
            old(visited).wf(),
        ensures
            final(self).wf(),
            final(visited).wf(),
            final(self).input@ == old(self).input@,
            current.1@.len() >= depth_limit(max_depth) ==> {
                &&& final(self).output@ == old(self).output@
                &&& final(visited)@ == old(visited)@
            },
            current.1@.len() < depth_limit(max_depth) ==> {
                &&& entry_views(final(self).output@) == entry_views(old(self).output@)
                    + new_successors(old(visited)@, current.0@, current.1@)
                &&& final(visited)@ == old(visited)@.union(
                    successor_keys(current.0@, legal_moves(current.0@)),
                )
            },
    {
        let limit = if max_depth <= MOVE_HISTORY_CAPACITY {
            max_depth
        } else {
            MOVE_HISTORY_CAPACITY
        };
        if current.1.len() >= limit {
            return ;
        }
        let moves = current.0.get_legal_moves();
        let ghost p = current.0@;
        let ghost h = current.1@;
        let ghost v0 = visited@;
        let ghost out0 = entry_views(self.output@);
        let ghost fresh = leads_to_new(v0, p);
        let ghost make = successor_of(p, h);
        proof {
            current.0.lemma_wf_valid();
            lemma_legal_moves_distinct(p);
            assert(moves@.subrange(0, 0).filter(fresh) =~= Seq::<Move>::empty()) by {
                reveal(Seq::filter);
            }
            assert(out0 + moves@.subrange(0, 0).filter(fresh).map_values(make) =~= out0);
            assert(v0.union(successor_keys(p, moves@.subrange(0, 0))) =~= v0);
        }
        let mut k: usize = 0;
        while k < moves.len()
            invariant
                self.wf(),
                visited.wf(),
                current.wf(),
                h.len() < MOVE_HISTORY_CAPACITY,
                p == current.0@,
                h == current.1@,
                fresh == leads_to_new(v0, p),
                make == successor_of(p, h),
                position_valid(p),
                moves@ == legal_moves(p),
                moves@.no_duplicates(),
                self.input@ == old(self).input@,
                k <= moves@.len(),
                entry_views(self.output@) == out0 + moves@.subrange(0, k as int).filter(
                    fresh,
                ).map_values(make),
                visited@ == v0.union(successor_keys(p, moves@.subrange(0, k as int))),
            decreases moves@.len() - k,
        {
            let m = moves[k];
            let ghost s = after_move(p, m.from as int, m.to as int);
            let ghost out_k = self.output@;
            proof {
                lemma_generated_moves_are_legal(p, k as int);
                lemma_move_conserves_balls(p, m.from as int, m.to as int);
                lemma_not_among_earlier(p, moves@, k as int);
                lemma_successor_keys_step(p, moves@, k as int);
                lemma_filter_step(moves@, fresh, k as int);
            }
            let mut new_gs = current.0.clone();
            new_gs.apply_move(m);
            if visited.claim(&new_gs) {
                let mut history = current.1.clone();
                history.push(m);
                self.output.push_back(GameStateWithHistory(new_gs, history));
                proof {
                    assert(fresh(m));
                    assert(self.output@.last()@ == make(m));
                    assert(entry_views(self.output@) =~= entry_views(out_k).push(make(m)));
                    assert(moves@.subrange(0, k + 1).filter(fresh).map_values(make)
                        =~= moves@.subrange(0, k as int).filter(fresh).map_values(make).push(
                        make(m),
                    ));
                }
            } else {
                proof {
                    assert(!fresh(m));
                }
            }
            proof {
                assert(visited@ =~= v0.union(successor_keys(p, moves@.subrange(0, k + 1))));
                assert(entry_views(self.output@) =~= out0 + moves@.subrange(0, k + 1).filter(
                    fresh,
                ).map_values(make));
            }
            k = k + 1;
        }
        proof {
            assert(moves@.subrange(0, k as int) =~= moves@);
        }
    }
}

/// The depth bound in force is no more than the one asked for, and no
/// more than a history can record.
pub proof fn lemma_depth_limit_bounds(max_depth: usize)
    ensures
        depth_limit(max_depth) <= max_depth,
        depth_limit(max_depth) <= MOVE_HISTORY_CAPACITY,
{
}

/// Every entry that an expansion produces holds a position one legal move
/// away from the one expanded, a position that was not visited before,
/// and the history expanded with that move at its end: the path grows by
/// one move with each expansion and by no more.
pub proof fn lemma_successors_one_longer(
    visited: Set<Seq<u8>>,
    p: Seq<Seq<u8>>,
    history: Seq<Move>,
    i: int,
)
    requires
        0 <= i < new_successors(visited, p, history).len(),
    ensures
        ({
            let e = new_successors(visited, p, history)[i];
            let m = e.1.last();
            &&& e.1.len() == history.len() + 1
            &&& e.1.drop_last() == history
            &&& crate::game_state::legal(p, m.from as int, m.to as int)
            &&& e.0 == after_move(p, m.from as int, m.to as int)
            &&& !visited.contains(position_key(e.0))
        }),
{
    let moves = legal_moves(p);
    let fresh = leads_to_new(visited, p);
    let kept = moves.filter(fresh);
    let m = kept[i];
    moves.lemma_filter_pred(fresh, i);
    assert(kept.contains(m));
    moves.lemma_filter_contains_rev(fresh, m);
    let k = choose|k: int| 0 <= k < moves.len() && moves[k] == m;
    lemma_generated_moves_are_legal(p, k);
    assert(history.push(m).drop_last() =~= history);
}

/// The position that a legal move leads to is not one that an earlier
/// legal move leads to.
proof fn lemma_not_among_earlier(p: Seq<Seq<u8>>, moves: Seq<Move>, k: int)
    requires
        position_valid(p),
        moves == legal_moves(p),
        moves.no_duplicates(),
        0 <= k < moves.len(),
    ensures
        !successor_keys(p, moves.subrange(0, k)).contains(
            position_key(after_move(p, moves[k].from as int, moves[k].to as int)),
        ),
{
    let earlier = moves.subrange(0, k);
    let key = position_key(after_move(p, moves[k].from as int, moves[k].to as int));
    if successor_keys(p, earlier).contains(key) {
        let i = choose|i: int|
            0 <= i < earlier.len() && key == position_key(
                after_move(p, (#[trigger] earlier[i]).from as int, earlier[i].to as int),
            );
        assert(earlier[i] == moves[i]);
        lemma_generated_moves_are_legal(p, i);
        lemma_generated_moves_are_legal(p, k);
        lemma_move_conserves_balls(p, moves[i].from as int, moves[i].to as int);
        lemma_move_conserves_balls(p, moves[k].from as int, moves[k].to as int);
        lemma_moves_lead_apart(
            p,
            moves[i].from as int,
            moves[i].to as int,
            moves[k].from as int,
            moves[k].to as int,
        );
        lemma_key_injective(
            after_move(p, moves[i].from as int, moves[i].to as int),
            after_move(p, moves[k].from as int, moves[k].to as int),
        );
    }
}

/// One move more leads to one key more.
proof fn lemma_successor_keys_step(p: Seq<Seq<u8>>, moves: Seq<Move>, k: int)
    requires
        0 <= k < moves.len(),
    ensures
        successor_keys(p, moves.subrange(0, k + 1)) == successor_keys(
            p,
            moves.subrange(0, k),
        ).insert(position_key(after_move(p, moves[k].from as int, moves[k].to as int))),
{
    let shorter = moves.subrange(0, k);
    let longer = moves.subrange(0, k + 1);
    let key = position_key(after_move(p, moves[k].from as int, moves[k].to as int));
    assert forall|x: Seq<u8>| successor_keys(p, longer).contains(x) implies successor_keys(
        p,
        shorter,
    ).insert(key).contains(x) by {
        let i = choose|i: int|
            0 <= i < longer.len() && x == position_key(
                after_move(p, (#[trigger] longer[i]).from as int, longer[i].to as int),
            );
        if i < k {
            assert(shorter[i] == longer[i]);
        }
    }
    assert forall|x: Seq<u8>| successor_keys(p, shorter).insert(key).contains(
        x,
    ) implies successor_keys(p, longer).contains(x) by {
        if x == key {
            assert(longer[k] == moves[k]);
        } else {
            let i = choose|i: int|
                0 <= i < shorter.len() && x == position_key(
                    after_move(p, (#[trigger] shorter[i]).from as int, shorter[i].to as int),
                );
            assert(longer[i] == shorter[i]);
        }
    }
    assert(successor_keys(p, longer) =~= successor_keys(p, shorter).insert(key));
}

} // verus!

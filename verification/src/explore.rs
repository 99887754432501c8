//! What holds of a breadth-first exploration at every step, stated over
//! mathematical values, and why each step of the search keeps it.

use crate::game_state::{
    after_move, legal, legal_moves, lemma_key_injective, lemma_legal_moves_are_generated,
    lemma_move_conserves_balls, position_key, position_solved, position_valid,
};
use crate::move_type::Move;
use crate::path::{lemma_path_conserves, lemma_path_push, path_end, path_valid};
use crate::worker::{leads_to_new, new_successors, successor_keys, successor_of};
use vstd::multiset::Multiset;
use vstd::prelude::*;

verus! {

broadcast use {
    vstd::seq_lib::group_to_multiset_ensures,
    vstd::multiset::group_multiset_properties,
};

/// The state of an exploration: where it started, how deep it goes, the
/// keys of the positions met, the entries that await expansion, the
/// positions dealt with (each with the length of the path that first
/// reached it), and the length of the paths now being expanded.
pub struct Exploration {
    pub start: Seq<Seq<u8>>,
    pub limit: nat,
    pub visited: Set<Seq<u8>>,
    pub pending: Multiset<(Seq<Seq<u8>>, Seq<Move>)>,
    pub done: Map<Seq<Seq<u8>>, nat>,
    pub level: nat,
}

/// The moves are a valid path from `start` that ends in `q`.
pub open spec fn reaches(start: Seq<Seq<u8>>, moves: Seq<Move>, q: Seq<Seq<u8>>) -> bool {
    path_valid(start, moves) && path_end(start, moves) == q
}

/// An entry that awaits expansion: its history leads to its position and
/// is as short as any path that does, it is within the depth bound and
/// at the level being expanded or the next, and its position was claimed.
pub open spec fn entry_ok(x: Exploration, e: (Seq<Seq<u8>>, Seq<Move>)) -> bool {
    &&& reaches(x.start, e.1, e.0)
    &&& e.1.len() <= x.limit
    &&& x.level <= e.1.len() <= x.level + 1
    &&& x.visited.contains(position_key(e.0))
    &&& forall|g: Seq<Move>| #[trigger] reaches(x.start, g, e.0) ==> e.1.len() <= g.len()
}

/// A position dealt with: it was claimed and found unsolved, no path
/// reaches it that is shorter than the one by which it was found, and if
/// that one was below the depth bound, every position one move away was
/// claimed too.
pub open spec fn done_ok(x: Exploration, q: Seq<Seq<u8>>) -> bool {
    &&& position_valid(q)
    &&& x.visited.contains(position_key(q))
    &&& !position_solved(q)
    &&& forall|g: Seq<Move>| #[trigger] reaches(x.start, g, q) ==> x.done[q] <= g.len()
    &&& x.done[q] < x.limit ==> forall|a: int, b: int| #[trigger]
        legal(q, a, b) ==> x.visited.contains(position_key(after_move(q, a, b)))
}

/// What holds between the steps of an exploration. `current` is the
/// position of the entry that has been taken out and not yet dealt with,
/// if there is one.
pub open spec fn explored(x: Exploration, current: Option<Seq<Seq<u8>>>) -> bool {
    &&& position_valid(x.start)
    &&& x.visited.contains(position_key(x.start))
    &&& forall|e: (Seq<Seq<u8>>, Seq<Move>)| #[trigger] x.pending.contains(e) ==> entry_ok(x, e)
    &&& forall|q: Seq<Seq<u8>>| #[trigger] x.done.dom().contains(q) ==> done_ok(x, q)
    &&& forall|q: Seq<Seq<u8>>|
        position_valid(q) && #[trigger] x.visited.contains(position_key(q)) ==> {
            ||| x.done.dom().contains(q)
            ||| current == Some(q)
            ||| exists|h: Seq<Move>| #[trigger] x.pending.contains((q, h))
        }
    &&& forall|g: Seq<Move>|
        path_valid(x.start, g) && g.len() < x.level ==> x.done.dom().contains(
            #[trigger] path_end(x.start, g),
        )
}

/// The test that picks the entries whose history has a given length.
pub open spec fn at_depth(d: nat) -> spec_fn((Seq<Seq<u8>>, Seq<Move>)) -> bool {
    |e: (Seq<Seq<u8>>, Seq<Move>)| e.1.len() == d
}

/// How many entries await expansion at the level being expanded.
pub open spec fn at_level(x: Exploration) -> nat {
    x.pending.filter(at_depth(x.level)).len()
}

/// The exploration at its start: the initial position claimed and
/// awaiting expansion, nothing else.
pub open spec fn exploration_start(start: Seq<Seq<u8>>, limit: nat) -> Exploration {
    Exploration {
        start,
        limit,
        visited: Set::<Seq<u8>>::empty().insert(position_key(start)),
        pending: Multiset::<(Seq<Seq<u8>>, Seq<Move>)>::empty().insert(
            (start, Seq::<Move>::empty()),
        ),
        done: Map::<Seq<Seq<u8>>, nat>::empty(),
        level: 0,
    }
}

/// The exploration after an entry was taken out for expansion.
pub open spec fn after_take(x: Exploration, e: (Seq<Seq<u8>>, Seq<Move>)) -> Exploration {
    Exploration { pending: x.pending.remove(e), level: e.1.len(), ..x }
}

/// The exploration after the entry taken out was expanded.
pub open spec fn after_expand(x: Exploration, e: (Seq<Seq<u8>>, Seq<Move>)) -> Exploration {
    if e.1.len() < x.limit {
        Exploration {
            visited: x.visited.union(successor_keys(e.0, legal_moves(e.0))),
            pending: x.pending.add(new_successors(x.visited, e.0, e.1).to_multiset()),
            done: x.done.insert(e.0, e.1.len()),
            ..x
        }
    } else {
        Exploration { done: x.done.insert(e.0, e.1.len()), ..x }
    }
}

/// The start of an exploration is in order.
pub proof fn lemma_start_explored(start: Seq<Seq<u8>>, limit: nat)
    requires
        position_valid(start),
    ensures
        explored(exploration_start(start, limit), None),
{
    let x = exploration_start(start, limit);
    let first = (start, Seq::<Move>::empty());
    assert forall|e: (Seq<Seq<u8>>, Seq<Move>)| #[trigger] x.pending.contains(e) implies entry_ok(
        x,
        e,
    ) by {
        assert(e == first);
    }
    assert forall|q: Seq<Seq<u8>>|
        position_valid(q) && #[trigger] x.visited.contains(position_key(q)) implies exists|
        h: Seq<Move>,
    | #[trigger] x.pending.contains((q, h)) by {
        lemma_key_injective(q, start);
        assert(x.pending.contains((q, Seq::<Move>::empty())));
    }
}

/// Taking out an entry whose history is as short as any leaves the
/// exploration in order, at the level of that entry: every path shorter
/// than its history ends in a position dealt with.
pub proof fn lemma_take_explored(x: Exploration, e: (Seq<Seq<u8>>, Seq<Move>))
    requires
        explored(x, None),
        x.pending.contains(e),
        forall|y: (Seq<Seq<u8>>, Seq<Move>)| #[trigger] x.pending.contains(y) ==> e.1.len() <= y.1.len(),
    ensures
        explored(after_take(x, e), Some(e.0)),
        entry_ok(after_take(x, e), e),
{
    let y = after_take(x, e);
    assert(entry_ok(x, e));
    assert forall|f: (Seq<Seq<u8>>, Seq<Move>)| #[trigger] y.pending.contains(f) implies entry_ok(
        y,
        f,
    ) by {
        assert(x.pending.contains(f));
        assert(entry_ok(x, f));
    }
    assert forall|q: Seq<Seq<u8>>| #[trigger] y.done.dom().contains(q) implies done_ok(y, q) by {
        assert(done_ok(x, q));
    }
    assert forall|q: Seq<Seq<u8>>|
        position_valid(q) && #[trigger] y.visited.contains(position_key(q)) implies {
        ||| y.done.dom().contains(q)
        ||| Some(e.0) == Some(q)
        ||| exists|h: Seq<Move>| #[trigger] y.pending.contains((q, h))
    } by {
        if !x.done.dom().contains(q) && q != e.0 {
            let h = choose|h: Seq<Move>| #[trigger] x.pending.contains((q, h));
            assert(y.pending.contains((q, h)));
        }
    }
    assert forall|g: Seq<Move>| path_valid(y.start, g) && g.len() < y.level implies y.done.dom().contains(
        #[trigger] path_end(y.start, g),
    ) by {
        if g.len() >= x.level {
            lemma_level_complete(x, e, g);
        }
    }
}

/// Once no entry is left at a level, every path of that length ends in a
/// position dealt with.
proof fn lemma_level_complete(x: Exploration, e: (Seq<Seq<u8>>, Seq<Move>), g: Seq<Move>)
    requires
        explored(x, None),
        x.pending.contains(e),
        forall|y: (Seq<Seq<u8>>, Seq<Move>)| #[trigger] x.pending.contains(y) ==> e.1.len() <= y.1.len(),
        path_valid(x.start, g),
        g.len() == x.level,
        e.1.len() == x.level + 1,
    ensures
        x.done.dom().contains(path_end(x.start, g)),
{
    let q = path_end(x.start, g);
    lemma_path_conserves(x.start, g);
    assert(entry_ok(x, e));
    assert(reaches(x.start, g, q));
    if g.len() > 0 {
        let g0 = g.drop_last();
        let w = path_end(x.start, g0);
        assert(path_valid(x.start, g0));
        assert(x.done.dom().contains(w));
        assert(done_ok(x, w));
        assert(reaches(x.start, g0, w));
        assert(x.done[w] <= g0.len());
        assert(legal(w, g.last().from as int, g.last().to as int));
        assert(x.visited.contains(position_key(q)));
    }
    if !x.done.dom().contains(q) {
        let h = choose|h: Seq<Move>| #[trigger] x.pending.contains((q, h));
        assert(entry_ok(x, (q, h)));
        assert(h.len() <= g.len());
        assert(e.1.len() <= h.len());
    }
}

/// The first entry taken out whose position is solved has a history as
/// short as any path to a solved position.
pub proof fn lemma_first_solved_is_shortest(
    x: Exploration,
    e: (Seq<Seq<u8>>, Seq<Move>),
    g: Seq<Move>,
)
    requires
        explored(x, Some(e.0)),
        x.level == e.1.len(),
        path_valid(x.start, g),
        position_solved(path_end(x.start, g)),
    ensures
        e.1.len() <= g.len(),
{
    if g.len() < x.level {
        assert(x.done.dom().contains(path_end(x.start, g)));
        assert(done_ok(x, path_end(x.start, g)));
    }
}

/// Expanding the entry taken out, which is not solved, leaves the
/// exploration in order.
pub proof fn lemma_expand_explored(x: Exploration, e: (Seq<Seq<u8>>, Seq<Move>))
    requires
        explored(x, Some(e.0)),
        entry_ok(x, e),
        x.level == e.1.len(),
        !position_solved(e.0),
    ensures
        explored(after_expand(x, e), None),
{
    let y = after_expand(x, e);
    let p = e.0;
    lemma_path_conserves(x.start, e.1);
    assert(position_valid(p));
    assert forall|k: Seq<u8>| x.visited.contains(k) implies y.visited.contains(k) by {}
    assert forall|f: (Seq<Seq<u8>>, Seq<Move>)| #[trigger] y.pending.contains(f) implies entry_ok(
        y,
        f,
    ) by {
        if x.pending.contains(f) {
            assert(entry_ok(x, f));
        } else {
            lemma_new_entry_ok(x, e, f);
        }
    }
    assert forall|q: Seq<Seq<u8>>| #[trigger] y.done.dom().contains(q) implies done_ok(y, q) by {
        if q == p {
            if e.1.len() < x.limit {
                assert forall|a: int, b: int| #[trigger] legal(p, a, b) implies y.visited.contains(
                    position_key(after_move(p, a, b)),
                ) by {
                    lemma_legal_moves_are_generated(p, a, b);
                    let m = Move { from: a as u8, to: b as u8 };
                    let i = choose|i: int| 0 <= i < legal_moves(p).len() && legal_moves(p)[i] == m;
                    assert(successor_keys(p, legal_moves(p)).contains(
                        position_key(
                            after_move(p, legal_moves(p)[i].from as int, legal_moves(p)[i].to as int),
                        ),
                    ));
                }
            }
        } else {
            assert(done_ok(x, q));
        }
    }
    assert forall|q: Seq<Seq<u8>>|
        position_valid(q) && #[trigger] y.visited.contains(position_key(q)) implies {
        ||| y.done.dom().contains(q)
        ||| exists|h: Seq<Move>| #[trigger] y.pending.contains((q, h))
    } by {
        if x.visited.contains(position_key(q)) {
            if !x.done.dom().contains(q) && q != p {
                let h = choose|h: Seq<Move>| #[trigger] x.pending.contains((q, h));
                assert(y.pending.contains((q, h)));
            }
        } else {
            lemma_new_position_pending(x, e, q);
        }
    }
    assert forall|g: Seq<Move>| path_valid(y.start, g) && g.len() < y.level implies y.done.dom().contains(
        #[trigger] path_end(y.start, g),
    ) by {
        assert(x.done.dom().contains(path_end(x.start, g)));
    }
}

/// A position newly claimed by an expansion awaits expansion afterwards.
proof fn lemma_new_position_pending(x: Exploration, e: (Seq<Seq<u8>>, Seq<Move>), q: Seq<Seq<u8>>)
    requires
        explored(x, Some(e.0)),
        entry_ok(x, e),
        position_valid(q),
        !x.visited.contains(position_key(q)),
        after_expand(x, e).visited.contains(position_key(q)),
    ensures
        exists|h: Seq<Move>| #[trigger] after_expand(x, e).pending.contains((q, h)),
{
    let p = e.0;
    let moves = legal_moves(p);
    lemma_path_conserves(x.start, e.1);
    assert(successor_keys(p, moves).contains(position_key(q)));
    let i = choose|i: int|
        0 <= i < moves.len() && position_key(q) == position_key(
            after_move(p, (#[trigger] moves[i]).from as int, moves[i].to as int),
        );
    let m = moves[i];
    let s = after_move(p, m.from as int, m.to as int);
    crate::game_state::lemma_generated_moves_are_legal(p, i);
    lemma_move_conserves_balls(p, m.from as int, m.to as int);
    lemma_key_injective(q, s);
    let fresh = leads_to_new(x.visited, p);
    assert(fresh(m));
    moves.lemma_filter_contains(fresh, i);
    let kept = moves.filter(fresh);
    let j = choose|j: int| 0 <= j < kept.len() && kept[j] == m;
    let made = kept.map_values(successor_of(p, e.1));
    assert(made[j] == (q, e.1.push(m)));
    assert(made.contains((q, e.1.push(m))));
    assert(made.to_multiset().contains((q, e.1.push(m))));
    assert(after_expand(x, e).pending.contains((q, e.1.push(m))));
}

/// An entry that an expansion produces is in order.
proof fn lemma_new_entry_ok(
    x: Exploration,
    e: (Seq<Seq<u8>>, Seq<Move>),
    f: (Seq<Seq<u8>>, Seq<Move>),
)
    requires
        explored(x, Some(e.0)),
        entry_ok(x, e),
        x.level == e.1.len(),
        !x.pending.contains(f),
        after_expand(x, e).pending.contains(f),
    ensures
        entry_ok(after_expand(x, e), f),
{
    let y = after_expand(x, e);
    let p = e.0;
    let moves = legal_moves(p);
    let fresh = leads_to_new(x.visited, p);
    let kept = moves.filter(fresh);
    let made = kept.map_values(successor_of(p, e.1));
    assert(e.1.len() < x.limit);
    assert(made.to_multiset().contains(f));
    assert(made.contains(f));
    let j = choose|j: int| 0 <= j < made.len() && made[j] == f;
    let m = kept[j];
    assert(f == (after_move(p, m.from as int, m.to as int), e.1.push(m)));
    moves.lemma_filter_pred(fresh, j);
    assert(fresh(m));
    assert(kept.contains(m));
    moves.lemma_filter_contains_rev(fresh, m);
    let i = choose|i: int| 0 <= i < moves.len() && moves[i] == m;
    crate::game_state::lemma_generated_moves_are_legal(p, i);
    lemma_path_push(x.start, e.1, m);
    assert(reaches(x.start, f.1, f.0));
    assert(successor_keys(p, moves).contains(
        position_key(after_move(p, moves[i].from as int, moves[i].to as int)),
    ));
    assert(y.visited.contains(position_key(f.0)));
    assert forall|g: Seq<Move>| #[trigger] reaches(x.start, g, f.0) implies f.1.len() <= g.len() by {
        if g.len() <= e.1.len() {
            if g.len() == 0 {
                assert(f.0 == x.start);
            } else {
                let g0 = g.drop_last();
                let w = path_end(x.start, g0);
                assert(path_valid(x.start, g0));
                assert(x.done.dom().contains(w));
                assert(done_ok(x, w));
                assert(reaches(x.start, g0, w));
                assert(legal(w, g.last().from as int, g.last().to as int));
            }
            assert(x.visited.contains(position_key(f.0)));
        }
    }
}

/// When nothing awaits expansion, no path within the depth bound ends in
/// a solved position.
pub proof fn lemma_exhausted_means_unsolvable(x: Exploration, g: Seq<Move>)
    requires
        explored(x, None),
        x.pending.len() == 0,
        path_valid(x.start, g),
        g.len() <= x.limit,
    ensures
        !position_solved(path_end(x.start, g)),
    decreases g.len(),
{
    lemma_every_path_done(x, g);
    assert(done_ok(x, path_end(x.start, g)));
}

/// When nothing awaits expansion, every path within the depth bound ends
/// in a position dealt with.
proof fn lemma_every_path_done(x: Exploration, g: Seq<Move>)
    requires
        explored(x, None),
        x.pending.len() == 0,
        path_valid(x.start, g),
        g.len() <= x.limit,
    ensures
        x.done.dom().contains(path_end(x.start, g)),
    decreases g.len(),
{
    let q = path_end(x.start, g);
    lemma_path_conserves(x.start, g);
    if g.len() > 0 {
        let g0 = g.drop_last();
        let w = path_end(x.start, g0);
        lemma_every_path_done(x, g0);
        assert(done_ok(x, w));
        assert(reaches(x.start, g0, w));
        assert(legal(w, g.last().from as int, g.last().to as int));
    }
    assert(x.visited.contains(position_key(q)));
    if !x.done.dom().contains(q) {
        let h = choose|h: Seq<Move>| #[trigger] x.pending.contains((q, h));
        assert(x.pending.count((q, h)) > 0);
    }
}

} // verus!

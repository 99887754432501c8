//! A position of the puzzle: the tubes in their order, what moves are
//! legal in it, and what a move does to it.

use crate::move_type::Move;
use crate::tube::{stack_solved, uniform, Tube, TUBE_SIZE};
use vstd::prelude::*;
use vstd::std_specs::cmp::PartialEqSpecImpl;

verus! {

/// The most tubes a position can have: a move names a tube by a `u8`.
pub const MAX_TUBES: usize = 256;

/// A position: the puzzle's tubes, in their order. Two positions are the
/// same only if each tube holds the same balls as the tube at the same
/// place in the other; tubes are never reordered.
#[derive(Debug)]
pub struct GameState(pub Vec<Tube>);

/// A position as a mathematical value: what each tube holds, bottom first.
pub open spec fn position_valid(p: Seq<Seq<u8>>) -> bool {
    &&& p.len() <= MAX_TUBES
    &&& forall|i: int| 0 <= i < p.len() ==> (#[trigger] p[i]).len() <= TUBE_SIZE
}

/// Whether a ball may go from tube `from` to tube `to`: the two differ, the
/// source holds a ball, the target has room, and the target is empty or
/// its top ball has the colour of the ball that moves.
pub open spec fn legal(p: Seq<Seq<u8>>, from: int, to: int) -> bool {
    &&& 0 <= from < p.len()
    &&& 0 <= to < p.len()
    &&& from != to
    &&& p[from].len() > 0
    &&& p[to].len() < TUBE_SIZE
    &&& (p[to].len() == 0 || p[from].last() == p[to].last())
}

/// The position after the top ball of tube `from` went onto tube `to`.
pub open spec fn after_move(p: Seq<Seq<u8>>, from: int, to: int) -> Seq<Seq<u8>> {
    p.update(from, p[from].drop_last()).update(to, p[to].push(p[from].last()))
}

/// Every tube is empty, or full and of one colour.
pub open spec fn position_solved(p: Seq<Seq<u8>>) -> bool {
    forall|i: int| 0 <= i < p.len() ==> (#[trigger] p[i]).len() == 0 || stack_solved(p[i])
}

/// Every ordered pair of tubes of a position with `n` tubes, as a move:
/// by source, and for one source by target.
pub open spec fn all_pairs(n: nat) -> Seq<Move> {
    Seq::new(n * n, |k: int| Move { from: (k / (n as int)) as u8, to: (k % (n as int)) as u8 })
}

/// The test that picks the legal moves of a position.
pub open spec fn legal_in(p: Seq<Seq<u8>>) -> spec_fn(Move) -> bool {
    |m: Move| legal(p, m.from as int, m.to as int)
}

/// The legal moves of a position: those of all ordered pairs of tubes that
/// are legal, in the order of `all_pairs`.
pub open spec fn legal_moves(p: Seq<Seq<u8>>) -> Seq<Move> {
    all_pairs(p.len()).filter(legal_in(p))
}

/// The number of balls in all tubes together.
pub open spec fn total_balls(p: Seq<Seq<u8>>) -> nat
    decreases p.len(),
{
    if p.len() == 0 {
        0
    } else {
        total_balls(p.drop_last()) + p.last().len()
    }
}

/// One tube as bytes: how many balls it holds, then the balls.
pub open spec fn tube_key(tube: Seq<u8>) -> Seq<u8> {
    seq![tube.len() as u8] + tube
}

/// A position as bytes: its tubes' keys one after the other. Only what
/// the tubes hold goes into it, so positions that hold the same balls have
/// the same key, and valid positions that differ have different keys.
pub open spec fn position_key(p: Seq<Seq<u8>>) -> Seq<u8>
    decreases p.len(),
{
    if p.len() == 0 {
        Seq::empty()
    } else {
        tube_key(p.first()) + position_key(p.drop_first())
    }
}

impl View for GameState {
    type V = Seq<Seq<u8>>;

    open spec fn view(&self) -> Seq<Seq<u8>> {
        Seq::new(self.0@.len(), |i: int| self.0@[i]@)
    }
}

impl GameState {
    /// Every tube is within its capacity, and there are no more tubes than
    /// a move can name.
    pub open spec fn wf(&self) -> bool {
        &&& self.0@.len() <= MAX_TUBES
        &&& forall|i: int| 0 <= i < self.0@.len() ==> (#[trigger] self.0@[i]).wf()
    }

    /// A well-formed position is a valid one.
    pub proof fn lemma_wf_valid(&self)
        requires
            self.wf(),
        ensures
            position_valid(self@),
    {
        assert forall|i: int| 0 <= i < self@.len() implies (#[trigger] self@[i]).len()
            <= TUBE_SIZE by {
            assert(self.0@[i].wf());
        }
    }

    /// A position of the given tubes, unless they are too many or one of
    /// them claims more balls than it can hold.
    pub fn from_tubes(tubes: Vec<Tube>) -> (r: Option<GameState>)
        ensures
            r.is_some() <==> (tubes@.len() <= MAX_TUBES && forall|i: int|
                0 <= i < tubes@.len() ==> (#[trigger] tubes@[i]).wf()),
            r.is_some() ==> r.unwrap().0 == tubes && r.unwrap().wf(),
    {
        if tubes.len() > MAX_TUBES {
            return None;
        }
        let mut i: usize = 0;
        while i < tubes.len()
            invariant
                i <= tubes@.len(),
                forall|k: int| 0 <= k < i ==> (#[trigger] tubes@[k]).wf(),
            decreases tubes@.len() - i,
        {
            if tubes[i].num_balls as usize > TUBE_SIZE {
                assert(!tubes@[i as int].wf());
                return None;
            }
            i = i + 1;
        }
        Some(GameState(tubes))
    }

    /// How many tubes the position has.
    pub fn tube_count(&self) -> (n: usize)
        ensures
            n == self@.len(),
    {
        self.0.len()
    }

    /// The position as bytes, for use as a key.
    pub fn key(&self) -> (key: Vec<u8>)
        requires
            self.wf(),
        ensures
            key@ == position_key(self@),
    {
        let mut key: Vec<u8> = Vec::new();
        let mut i: usize = 0;
        while i < self.0.len()
            invariant
                self.wf(),
                i <= self.0@.len(),
                key@ == position_key(self@.subrange(0, i as int)),
            decreases self.0@.len() - i,
        {
            let tube = &self.0[i];
            let ghost before = key@;
            key.push(tube.num_balls);
            let mut j: usize = 0;
            while j < tube.num_balls as usize
                invariant
                    tube.wf(),
                    j <= tube.num_balls,
                    key@ == before.push(tube.num_balls) + tube@.subrange(0, j as int),
                decreases tube.num_balls - j,
            {
                key.push(tube.colors[j]);
                assert(key@ =~= before.push(tube.num_balls) + tube@.subrange(0, j + 1));
                j = j + 1;
            }
            proof {
                assert(tube@.subrange(0, j as int) =~= tube@);
                assert(key@ =~= before + tube_key(tube@));
                lemma_key_push(self@.subrange(0, i as int), tube@);
                assert(self@.subrange(0, i as int).push(tube@) =~= self@.subrange(0, i + 1));
            }
            i = i + 1;
        }
        assert(self@.subrange(0, i as int) =~= self@);
        key
    }

    /// Whether every tube is empty or sorted.
    pub fn is_solved(&self) -> (b: bool)
        requires
            self.wf(),
        ensures
            b == position_solved(self@),
    {
        let mut i: usize = 0;
        while i < self.0.len()
            invariant
                self.wf(),
                i <= self.0@.len(),
                forall|k: int| 0 <= k < i ==> (#[trigger] self@[k]).len() == 0 || stack_solved(self@[k]),
            decreases self.0@.len() - i,
        {
            let tube = &self.0[i];
            if !(tube.is_empty() || tube.is_solved()) {
                assert(!(self@[i as int].len() == 0 || stack_solved(self@[i as int])));
                return false;
            }
            i = i + 1;
        }
        true
    }

    /// Whether a ball may go from tube `from` to tube `to`. Indices past
    /// the last tube name no tube, so no move.
    pub fn is_legal_move(&self, from: usize, to: usize) -> (b: bool)
        requires
            self.wf(),
        ensures
            b == legal(self@, from as int, to as int),
    {
        if from >= self.0.len() || to >= self.0.len() {
            return false;
        }
        let source_tube = &self.0[from];
        let target_tube = &self.0[to];
        assert(source_tube@ == self@[from as int]);
        assert(target_tube@ == self@[to as int]);
        if from == to || source_tube.is_empty() || target_tube.is_full() {
            return false;
        }
        if !target_tube.is_empty() && source_tube.get_top_color() != target_tube.get_top_color() {
            return false;
        }
        true
    }

    /// All legal moves of the position, by source tube and then by target.
    pub fn get_legal_moves(&self) -> (moves: Vec<Move>)
        requires
            self.wf(),
        ensures
            moves@ == legal_moves(self@),
    {
        let n = self.0.len();
        let ghost pairs = all_pairs(n as nat);
        let ghost keep = legal_in(self@);
        let mut legal_moves: Vec<Move> = Vec::new();
        let mut source_index: usize = 0;
        proof {
            assert(pairs.subrange(0, 0).filter(keep) =~= Seq::<Move>::empty()) by {
                reveal(Seq::filter);
            }
        }
        while source_index < n
            invariant
                self.wf(),
                n == self.0@.len(),
                source_index <= n,
                pairs == all_pairs(n as nat),
                keep == legal_in(self@),
                legal_moves@ == pairs.subrange(0, source_index * n).filter(keep),
            decreases n - source_index,
        {
            let mut target_index: usize = 0;
            while target_index < n
                invariant
                    self.wf(),
                    n == self.0@.len(),
                    source_index < n,
                    target_index <= n,
                    pairs == all_pairs(n as nat),
                    keep == legal_in(self@),
                    legal_moves@ == pairs.subrange(0, source_index * n + target_index).filter(keep),
                decreases n - target_index,
            {
                let ghost k = source_index * n + target_index;
                proof {
                    lemma_pair_at(n as nat, source_index as int, target_index as int);
                    lemma_filter_step(pairs, keep, k);
                }
                if self.is_legal_move(source_index, target_index) {
                    legal_moves.push(Move { from: source_index as u8, to: target_index as u8 });
                }
                target_index = target_index + 1;
            }
            proof {
                assert(source_index * n + n == (source_index + 1) * n) by (nonlinear_arith);
            }
            source_index = source_index + 1;
        }
        proof {
            assert(n * n == pairs.len());
            assert(pairs.subrange(0, n * n) =~= pairs);
        }
        legal_moves
    }

    /// Moves the top ball of tube `m.from` onto tube `m.to`. Exactly one
    /// ball moves, also where several of its colour lie on top of the
    /// source.
    pub fn apply_move(&mut self, m: Move)
        requires
            old(self).wf(),
            legal(old(self)@, m.from as int, m.to as int),
        ensures
            final(self).wf(),
            final(self)@ == after_move(old(self)@, m.from as int, m.to as int),
    {
        let from = m.from as usize;
        let to = m.to as usize;
        let mut source_tube = self.0[from];
        let mut target_tube = self.0[to];
        assert(source_tube@ == self@[from as int]);
        assert(target_tube@ == self@[to as int]);
        let color = source_tube.pop();
        target_tube.push(color);
        self.0.set(from, source_tube);
        self.0.set(to, target_tube);
        assert(self@ =~= after_move(old(self)@, m.from as int, m.to as int));
    }
}

impl Clone for GameState {
    fn clone(&self) -> (g: GameState)
        ensures
            g.0@ == self.0@,
            g@ == self@,
            self.wf() ==> g.wf(),
    {
        let mut tubes: Vec<Tube> = Vec::with_capacity(self.0.len());
        let mut i: usize = 0;
        while i < self.0.len()
            invariant
                i <= self.0@.len(),
                tubes@ == self.0@.subrange(0, i as int),
            decreases self.0@.len() - i,
        {
            tubes.push(self.0[i]);
            assert(tubes@ =~= self.0@.subrange(0, i + 1));
            i = i + 1;
        }
        assert(tubes@ =~= self.0@);
        GameState(tubes)
    }
}

impl PartialEqSpecImpl for GameState {
    open spec fn obeys_eq_spec() -> bool {
        true
    }

    /// Two positions are equal when they have as many tubes and each tube
    /// holds the same balls as its counterpart.
    open spec fn eq_spec(&self, other: &GameState) -> bool {
        self@ == other@
    }
}

impl PartialEq for GameState {
    fn eq(&self, other: &GameState) -> (b: bool) {
        if self.0.len() != other.0.len() {
            assert(self@.len() != other@.len());
            return false;
        }
        let mut i: usize = 0;
        while i < self.0.len()
            invariant
                i <= self.0@.len(),
                self.0@.len() == other.0@.len(),
                forall|k: int| 0 <= k < i ==> #[trigger] self@[k] == other@[k],
            decreases self.0@.len() - i,
        {
            if self.0[i] != other.0[i] {
                assert(self@[i as int] != other@[i as int]);
                return false;
            }
            i = i + 1;
        }
        assert(self@ =~= other@);
        true
    }
}

impl Eq for GameState {

}

/// The pair of source `i` and target `j` stands at place `i * n + j`.
pub proof fn lemma_pair_at(n: nat, i: int, j: int)
    requires
        0 <= i < n <= MAX_TUBES,
        0 <= j < n,
    ensures
        0 <= i * n + j < n * n,
        all_pairs(n).len() == n * n,
        all_pairs(n)[i * n + j] == (Move { from: i as u8, to: j as u8 }),
{
    let k = i * n + j;
    assert(0 <= k < n * n) by (nonlinear_arith)
        requires
            0 <= i < n,
            0 <= j < n,
            k == i * n + j,
    ;
    vstd::arithmetic::div_mod::lemma_fundamental_div_mod_converse(k, n as int, i, j);
}

/// Every generated move is legal: its source and target differ, the source
/// holds a ball, the target is not full, and a target that holds a ball
/// has on top the colour that the source has on top.
pub proof fn lemma_generated_moves_are_legal(p: Seq<Seq<u8>>, k: int)
    requires
        0 <= k < legal_moves(p).len(),
    ensures
        legal(p, legal_moves(p)[k].from as int, legal_moves(p)[k].to as int),
        legal_moves(p)[k].from != legal_moves(p)[k].to,
        p[legal_moves(p)[k].from as int].len() > 0,
        p[legal_moves(p)[k].to as int].len() < TUBE_SIZE,
        p[legal_moves(p)[k].to as int].len() > 0 ==> p[legal_moves(p)[k].from as int].last()
            == p[legal_moves(p)[k].to as int].last(),
{
    all_pairs(p.len()).lemma_filter_pred(legal_in(p), k);
}

/// Every legal move is generated.
pub proof fn lemma_legal_moves_are_generated(p: Seq<Seq<u8>>, from: int, to: int)
    requires
        p.len() <= MAX_TUBES,
        legal(p, from, to),
    ensures
        legal_moves(p).contains(Move { from: from as u8, to: to as u8 }),
{
    lemma_pair_at(p.len(), from, to);
    all_pairs(p.len()).lemma_filter_contains(legal_in(p), from * p.len() + to);
}

/// Replacing one tube changes the number of balls by the difference of
/// the two tubes.
pub proof fn lemma_total_balls_update(p: Seq<Seq<u8>>, i: int, tube: Seq<u8>)
    requires
        0 <= i < p.len(),
    ensures
        total_balls(p.update(i, tube)) + p[i].len() == total_balls(p) + tube.len(),
    decreases p.len(),
{
    let q = p.update(i, tube);
    if i == p.len() - 1 {
        assert(q.drop_last() =~= p.drop_last());
    } else {
        assert(q.drop_last() =~= p.drop_last().update(i, tube));
        lemma_total_balls_update(p.drop_last(), i, tube);
    }
}

/// A legal move takes one ball from its source and gives one to its
/// target: the source holds one ball fewer, the target one more, every
/// other tube is untouched, and the position holds as many balls as
/// before.
pub proof fn lemma_move_conserves_balls(p: Seq<Seq<u8>>, from: int, to: int)
    requires
        legal(p, from, to),
    ensures
        after_move(p, from, to).len() == p.len(),
        after_move(p, from, to)[from].len() == p[from].len() - 1,
        after_move(p, from, to)[to].len() == p[to].len() + 1,
        forall|i: int|
            0 <= i < p.len() && i != from && i != to ==> #[trigger] after_move(p, from, to)[i]
                == p[i],
        total_balls(after_move(p, from, to)) == total_balls(p),
        position_valid(p) ==> position_valid(after_move(p, from, to)),
{
    let mid = p.update(from, p[from].drop_last());
    lemma_total_balls_update(p, from, p[from].drop_last());
    lemma_total_balls_update(mid, to, p[to].push(p[from].last()));
}

/// What holds of a legal move holds of every generated move.
pub proof fn lemma_generated_move_conserves_balls(p: Seq<Seq<u8>>, k: int)
    requires
        0 <= k < legal_moves(p).len(),
    ensures
        ({
            let m = legal_moves(p)[k];
            let q = after_move(p, m.from as int, m.to as int);
            &&& q.len() == p.len()
            &&& q[m.from as int].len() == p[m.from as int].len() - 1
            &&& q[m.to as int].len() == p[m.to as int].len() + 1
            &&& total_balls(q) == total_balls(p)
        }),
{
    lemma_generated_moves_are_legal(p, k);
    let m = legal_moves(p)[k];
    lemma_move_conserves_balls(p, m.from as int, m.to as int);
}

/// A position with a tube that is neither empty nor full, or that holds
/// two colours, is not solved.
pub proof fn lemma_unsorted_tube_not_solved(p: Seq<Seq<u8>>, i: int)
    requires
        0 <= i < p.len(),
        0 < p[i].len() < TUBE_SIZE || !uniform(p[i]),
    ensures
        !position_solved(p),
{
    if !uniform(p[i]) {
        assert(p[i].len() > 0);
    }
}

/// The key of a position with one tube more ends with that tube's key.
pub proof fn lemma_key_push(p: Seq<Seq<u8>>, tube: Seq<u8>)
    ensures
        position_key(p.push(tube)) == position_key(p) + tube_key(tube),
    decreases p.len(),
{
    let q = p.push(tube);
    if p.len() == 0 {
        assert(q.drop_first() =~= Seq::<Seq<u8>>::empty());
        assert(position_key(q.drop_first()) =~= Seq::<u8>::empty());
        assert(position_key(q) =~= position_key(p) + tube_key(tube));
    } else {
        assert(q.drop_first() =~= p.drop_first().push(tube));
        lemma_key_push(p.drop_first(), tube);
        assert(position_key(q) =~= position_key(p) + tube_key(tube));
    }
}

/// Valid positions with the same key are the same position.
pub proof fn lemma_key_injective(p: Seq<Seq<u8>>, q: Seq<Seq<u8>>)
    requires
        position_valid(p),
        position_valid(q),
        position_key(p) == position_key(q),
    ensures
        p == q,
    decreases p.len(),
{
    if p.len() == 0 {
        if q.len() > 0 {
            assert(position_key(q).len() >= tube_key(q.first()).len());
        }
        assert(p =~= q);
    } else {
        if q.len() == 0 {
            assert(position_key(p).len() >= tube_key(p.first()).len());
        }
        let kp = position_key(p);
        let kq = position_key(q);
        let a = p.first();
        let b = q.first();
        assert(a.len() <= TUBE_SIZE && b.len() <= TUBE_SIZE);
        assert(kp[0] == a.len() as u8);
        assert(kq[0] == b.len() as u8);
        assert(a.len() == b.len());
        let n = a.len() as int;
        assert(kp.subrange(1, 1 + n) =~= a);
        assert(kq.subrange(1, 1 + n) =~= b);
        assert(kp.subrange(1 + n, kp.len() as int) =~= position_key(p.drop_first()));
        assert(kq.subrange(1 + n, kq.len() as int) =~= position_key(q.drop_first()));
        assert(position_valid(p.drop_first())) by {
            assert forall|i: int| 0 <= i < p.drop_first().len() implies (#[trigger] p.drop_first()[i]).len()
                <= TUBE_SIZE by {
                assert(p.drop_first()[i] == p[i + 1]);
            }
        }
        assert(position_valid(q.drop_first())) by {
            assert forall|i: int| 0 <= i < q.drop_first().len() implies (#[trigger] q.drop_first()[i]).len()
                <= TUBE_SIZE by {
                assert(q.drop_first()[i] == q[i + 1]);
            }
        }
        lemma_key_injective(p.drop_first(), q.drop_first());
        assert(p =~= seq![a] + p.drop_first());
        assert(q =~= seq![b] + q.drop_first());
    }
}

/// What is left of a sequence without repetitions has none either.
pub proof fn lemma_filter_no_duplicates(s: Seq<Move>, keep: spec_fn(Move) -> bool)
    requires
        s.no_duplicates(),
    ensures
        s.filter(keep).no_duplicates(),
    decreases s.len(),
{
    reveal(Seq::filter);
    if s.len() > 0 {
        let rest = s.drop_last();
        lemma_filter_no_duplicates(rest, keep);
        if keep(s.last()) {
            let kept = rest.filter(keep);
            assert forall|i: int, j: int|
                0 <= i < kept.push(s.last()).len() && 0 <= j < kept.push(s.last()).len() && i
                    != j implies kept.push(s.last())[i] != kept.push(s.last())[j] by {
                if i < kept.len() && j == kept.len() {
                    assert(kept.contains(kept[i]));
                    rest.lemma_filter_contains_rev(keep, kept[i]);
                    let k = choose|k: int| 0 <= k < rest.len() && rest[k] == kept[i];
                    assert(s[k] == kept[i]);
                }
                if j < kept.len() && i == kept.len() {
                    assert(kept.contains(kept[j]));
                    rest.lemma_filter_contains_rev(keep, kept[j]);
                    let k = choose|k: int| 0 <= k < rest.len() && rest[k] == kept[j];
                    assert(s[k] == kept[j]);
                }
            }
        }
    }
}

/// No pair of tubes occurs twice among all pairs.
pub proof fn lemma_all_pairs_distinct(n: nat)
    requires
        n <= MAX_TUBES,
    ensures
        all_pairs(n).no_duplicates(),
{
    let s = all_pairs(n);
    assert forall|i: int, j: int| 0 <= i < s.len() && 0 <= j < s.len() && i != j implies s[i]
        != s[j] by {
        let d = n as int;
        vstd::arithmetic::div_mod::lemma_fundamental_div_mod(i, d);
        vstd::arithmetic::div_mod::lemma_fundamental_div_mod(j, d);
        vstd::arithmetic::div_mod::lemma_mod_bound(i, d);
        vstd::arithmetic::div_mod::lemma_mod_bound(j, d);
        assert(0 <= i / d < d) by (nonlinear_arith)
            requires
                0 <= i < d * d,
                d > 0,
        ;
        assert(0 <= j / d < d) by (nonlinear_arith)
            requires
                0 <= j < d * d,
                d > 0,
        ;
        if i / d == j / d && i % d == j % d {
            assert(i == j);
        }
    }
}

/// No move occurs twice among the legal moves of a position.
pub proof fn lemma_legal_moves_distinct(p: Seq<Seq<u8>>)
    requires
        p.len() <= MAX_TUBES,
    ensures
        legal_moves(p).no_duplicates(),
{
    lemma_all_pairs_distinct(p.len());
    lemma_filter_no_duplicates(all_pairs(p.len()), legal_in(p));
}

/// Two different legal moves lead to two different positions.
pub proof fn lemma_moves_lead_apart(p: Seq<Seq<u8>>, a: int, b: int, c: int, d: int)
    requires
        legal(p, a, b),
        legal(p, c, d),
        a != c || b != d,
    ensures
        after_move(p, a, b) != after_move(p, c, d),
{
    let q = after_move(p, a, b);
    let r = after_move(p, c, d);
    if a != c {
        assert(q[a].len() == p[a].len() - 1);
        assert(r[a].len() >= p[a].len());
    } else {
        assert(q[b].len() == p[b].len() + 1);
        assert(r[b].len() == p[b].len());
    }
}

/// Filtering one element more either appends it or changes nothing.
pub proof fn lemma_filter_step(s: Seq<Move>, keep: spec_fn(Move) -> bool, k: int)
    requires
        0 <= k < s.len(),
    ensures
        s.subrange(0, k + 1).filter(keep) == if keep(s[k]) {
            s.subrange(0, k).filter(keep).push(s[k])
        } else {
            s.subrange(0, k).filter(keep)
        },
{
    reveal(Seq::filter);
    assert(s.subrange(0, k + 1).drop_last() =~= s.subrange(0, k));
}

} // verus!

//! Positions that await expansion, each with the moves that led to it,
//! handed out shortest path first.

use crate::game_state::GameState;
use crate::move_type::{Move, MoveHistory, MOVE_HISTORY_CAPACITY};
use std::cmp::Ordering;
use vstd::multiset::Multiset;
use vstd::prelude::*;
use vstd::std_specs::cmp::{PartialEqSpecImpl, PartialOrdSpecImpl};
use vstd::std_specs::convert::FromSpecImpl;

verus! {

broadcast use {
    vstd::seq_lib::group_to_multiset_ensures,
    vstd::multiset::group_multiset_properties,
    vstd::multiset::lemma_multiset_empty_len,
};

/// A position together with the moves that led to it from the initial
/// position. Entries compare by the length of their histories alone, and
/// the one with the shorter history is the greater: a max-first queue then
/// hands out shortest paths first.
#[derive(Debug)]
pub struct GameStateWithHistory(pub GameState, pub MoveHistory);

impl View for GameStateWithHistory {
    type V = (Seq<Seq<u8>>, Seq<Move>);

    open spec fn view(&self) -> (Seq<Seq<u8>>, Seq<Move>) {
        (self.0@, self.1@)
    }
}

impl GameStateWithHistory {
    /// Position and history are both well-formed.
    pub open spec fn wf(&self) -> bool {
        self.0.wf() && self.1.wf()
    }
}

impl FromSpecImpl<(GameState, MoveHistory)> for GameStateWithHistory {
    open spec fn obeys_from_spec() -> bool {
        true
    }

    open spec fn from_spec(value: (GameState, MoveHistory)) -> GameStateWithHistory {
        GameStateWithHistory(value.0, value.1)
    }
}

impl From<(GameState, MoveHistory)> for GameStateWithHistory {
    fn from(value: (GameState, MoveHistory)) -> (r: GameStateWithHistory) {
        GameStateWithHistory(value.0, value.1)
    }
}

impl PartialEqSpecImpl for GameStateWithHistory {
    open spec fn obeys_eq_spec() -> bool {
        true
    }

    open spec fn eq_spec(&self, other: &GameStateWithHistory) -> bool {
        self.1@.len() == other.1@.len()
    }
}

impl PartialEq for GameStateWithHistory {
    fn eq(&self, other: &GameStateWithHistory) -> (b: bool) {
        self.1.len() == other.1.len()
    }
}

impl Eq for GameStateWithHistory {

}

impl PartialOrdSpecImpl for GameStateWithHistory {
    open spec fn obeys_partial_cmp_spec() -> bool {
        true
    }

    open spec fn partial_cmp_spec(&self, other: &GameStateWithHistory) -> Option<Ordering> {
        if other.1@.len() < self.1@.len() {
            Some(Ordering::Less)
        } else if other.1@.len() == self.1@.len() {
            Some(Ordering::Equal)
        } else {
            Some(Ordering::Greater)
        }
    }
}

impl PartialOrd for GameStateWithHistory {
    fn partial_cmp(&self, other: &GameStateWithHistory) -> (r: Option<Ordering>) {
        let mine = self.1.len();
        let theirs = other.1.len();
        if theirs < mine {
            Some(Ordering::Less)
        } else if theirs == mine {
            Some(Ordering::Equal)
        } else {
            Some(Ordering::Greater)
        }
    }
}

/// What a list of entries holds, as mathematical values.
pub open spec fn entry_views(entries: Seq<GameStateWithHistory>) -> Seq<(Seq<Seq<u8>>, Seq<Move>)> {
    entries.map_values(|e: GameStateWithHistory| e@)
}

/// The entries of the first buckets, as a multiset.
pub open spec fn buckets_entries(buckets: Seq<Vec<GameStateWithHistory>>) -> Multiset<
    (Seq<Seq<u8>>, Seq<Move>),
>
    decreases buckets.len(),
{
    if buckets.len() == 0 {
        Multiset::empty()
    } else {
        buckets_entries(buckets.drop_last()).add(entry_views(buckets.last()@).to_multiset())
    }
}

/// The entries that await expansion. Entries are kept by the length of
/// their history, one bucket for each length.
pub struct Frontier {
    buckets: Vec<Vec<GameStateWithHistory>>,
    lowest: usize,
}

impl View for Frontier {
    type V = Multiset<(Seq<Seq<u8>>, Seq<Move>)>;

    /// The entries, in no order.
    closed spec fn view(&self) -> Multiset<(Seq<Seq<u8>>, Seq<Move>)> {
        buckets_entries(self.buckets@)
    }
}

impl Frontier {
    /// There is a bucket for each length that a history can have, each
    /// entry lies in the bucket of its length, and no entry lies below
    /// the mark of the lowest bucket in use.
    pub closed spec fn wf(&self) -> bool {
        &&& self.buckets@.len() == MOVE_HISTORY_CAPACITY + 1
        &&& self.lowest <= MOVE_HISTORY_CAPACITY + 1
        &&& forall|d: int, i: int|
            0 <= d < self.buckets@.len() && 0 <= i < self.buckets@[d]@.len() ==> {
                &&& (#[trigger] self.buckets@[d]@[i]).wf()
                &&& self.buckets@[d]@[i].1@.len() == d
            }
        &&& forall|d: int| 0 <= d < self.lowest ==> (#[trigger] self.buckets@[d])@.len() == 0
    }

    /// A frontier without entries.
    pub fn new() -> (f: Frontier)
        ensures
            f.wf(),
            f@ == Multiset::<(Seq<Seq<u8>>, Seq<Move>)>::empty(),
    {
        let mut buckets: Vec<Vec<GameStateWithHistory>> = Vec::new();
        let mut d: usize = 0;
        while d < MOVE_HISTORY_CAPACITY + 1
            invariant
                d <= MOVE_HISTORY_CAPACITY + 1,
                buckets@.len() == d,
                forall|k: int| 0 <= k < d ==> (#[trigger] buckets@[k])@.len() == 0,
                buckets_entries(buckets@) == Multiset::<(Seq<Seq<u8>>, Seq<Move>)>::empty(),
            decreases MOVE_HISTORY_CAPACITY + 1 - d,
        {
            let ghost before = buckets@;
            buckets.push(Vec::new());
            proof {
                assert(buckets@.drop_last() =~= before);
                assert(entry_views(buckets@.last()@) =~= Seq::empty());
                assert(buckets_entries(buckets@) =~= Multiset::empty());
            }
            d = d + 1;
        }
        Frontier { buckets, lowest: 0 }
    }

    /// Adds an entry.
    pub fn push(&mut self, entry: GameStateWithHistory)
        requires
            old(self).wf(),
            entry.wf(),
        ensures
            final(self).wf(),
            final(self)@ == old(self)@.insert(entry@),
            final(self)@.len() == old(self)@.len() + 1,
    {
        let d = entry.1.len();
        let ghost before = self.buckets@;
        let ghost bucket = self.buckets@[d as int]@;
        self.buckets[d].push(entry);
        if d < self.lowest {
            self.lowest = d;
        }
        proof {
            assert(self.buckets@[d as int]@ == bucket.push(entry));
            assert(entry_views(bucket.push(entry)) =~= entry_views(bucket).push(entry@));
            lemma_buckets_change(
                before,
                self.buckets@,
                d as int,
                entry_views(bucket).to_multiset().insert(entry@),
            );
            let old_d = entry_views(bucket).to_multiset();
            assert forall|x: (Seq<Seq<u8>>, Seq<Move>)| self@.count(x) == old(self)@.insert(
                entry@,
            ).count(x) by {
                assert(self@.add(old_d).count(x) == old(self)@.add(old_d.insert(entry@)).count(x));
            }
            assert(self@ =~= old(self)@.insert(entry@));
        }
    }

    /// Takes out an entry whose history is as short as any in the
    /// frontier; `None` when the frontier is empty. Which of several
    /// entries with histories of that length comes out is left open.
    pub fn pop(&mut self) -> (r: Option<GameStateWithHistory>)
        requires
            old(self).wf(),
        ensures
            final(self).wf(),
            r.is_none() <==> old(self)@.len() == 0,
            r.is_none() ==> final(self)@ == old(self)@,
            r.is_some() ==> {
                &&& r.unwrap().wf()
                &&& old(self)@.contains(r.unwrap()@)
                &&& final(self)@ == old(self)@.remove(r.unwrap()@)
                &&& final(self)@.len() == old(self)@.len() - 1
                &&& forall|x: (Seq<Seq<u8>>, Seq<Move>)| #[trigger]
                    old(self)@.contains(x) ==> r.unwrap()@.1.len() <= x.1.len()
            },
    {
        while self.lowest < MOVE_HISTORY_CAPACITY + 1 && self.buckets[self.lowest].len() == 0
            invariant
                self.wf(),
                self.buckets == old(self).buckets,
            decreases MOVE_HISTORY_CAPACITY + 1 - self.lowest,
        {
            self.lowest = self.lowest + 1;
        }
        if self.lowest >= MOVE_HISTORY_CAPACITY + 1 {
            proof {
                lemma_empty_buckets(self.buckets@);
            }
            return None;
        }
        let d = self.lowest;
        let ghost before = self.buckets@;
        let ghost bucket = self.buckets@[d as int]@;
        let entry = self.buckets[d].pop().unwrap();
        proof {
            assert(entry == bucket.last());
            assert(self.buckets@[d as int]@ == bucket.drop_last());
            assert(entry_views(bucket.drop_last()) =~= entry_views(bucket).drop_last());
            assert(entry_views(bucket).drop_last() =~= entry_views(bucket).remove(
                bucket.len() - 1,
            ));
            vstd::seq_lib::to_multiset_remove(entry_views(bucket), bucket.len() - 1);
            entry_views(bucket).to_multiset_ensures();
            assert(entry_views(bucket)[bucket.len() - 1] == entry@);
            assert(entry_views(bucket).contains(entry@));
            lemma_buckets_change(
                before,
                self.buckets@,
                d as int,
                entry_views(bucket).to_multiset().remove(entry@),
            );
            lemma_bucket_within(before, d as int, entry@);
            let old_d = entry_views(bucket).to_multiset();
            assert(old_d.count(entry@) > 0);
            assert(old(self)@.count(entry@) > 0);
            assert forall|x: (Seq<Seq<u8>>, Seq<Move>)| self@.count(x) == old(self)@.remove(
                entry@,
            ).count(x) by {
                assert(self@.add(old_d).count(x) == old(self)@.add(old_d.remove(entry@)).count(x));
            }
            assert(self@ =~= old(self)@.remove(entry@));
            assert forall|x: (Seq<Seq<u8>>, Seq<Move>)| #[trigger]
                old(self)@.contains(x) implies entry@.1.len() <= x.1.len() by {
                lemma_entry_has_bucket(before, x);
                let k = choose|k: int|
                    0 <= k < before.len() && entry_views(#[trigger] before[k]@).contains(x);
                let i = choose|i: int|
                    0 <= i < entry_views(before[k]@).len() && entry_views(before[k]@)[i] == x;
                assert(before[k]@[i]@ == x);
                assert(before[k]@[i].1@.len() == k);
                assert(before[k]@.len() > 0);
            }
        }
        Some(entry)
    }

    /// Whether no entry is left.
    pub fn is_empty(&self) -> (b: bool)
        requires
            self.wf(),
        ensures
            b == (self@.len() == 0),
    {
        let mut d: usize = self.lowest;
        while d < MOVE_HISTORY_CAPACITY + 1
            invariant
                self.wf(),
                self.lowest <= d <= MOVE_HISTORY_CAPACITY + 1,
                forall|k: int| 0 <= k < d ==> (#[trigger] self.buckets@[k])@.len() == 0,
            decreases MOVE_HISTORY_CAPACITY + 1 - d,
        {
            if self.buckets[d].len() != 0 {
                proof {
                    let x = self.buckets@[d as int]@[0]@;
                    assert(entry_views(self.buckets@[d as int]@)[0] == x);
                    assert(entry_views(self.buckets@[d as int]@).contains(x));
                    entry_views(self.buckets@[d as int]@).to_multiset_ensures();
                    lemma_bucket_within(self.buckets@, d as int, x);
                    assert(self@.count(x) > 0);
                    assert(self@.len() > 0);
                }
                return false;
            }
            d = d + 1;
        }
        proof {
            lemma_empty_buckets(self.buckets@);
        }
        true
    }
}

/// Buckets that are all empty hold no entry.
proof fn lemma_empty_buckets(buckets: Seq<Vec<GameStateWithHistory>>)
    requires
        forall|d: int| 0 <= d < buckets.len() ==> (#[trigger] buckets[d])@.len() == 0,
    ensures
        buckets_entries(buckets) == Multiset::<(Seq<Seq<u8>>, Seq<Move>)>::empty(),
        buckets_entries(buckets).len() == 0,
    decreases buckets.len(),
{
    if buckets.len() > 0 {
        lemma_empty_buckets(buckets.drop_last());
        assert(entry_views(buckets.last()@) =~= Seq::empty());
        assert(buckets_entries(buckets) =~= Multiset::empty());
    }
}

/// Where one bucket changes, the entries change as that bucket does.
proof fn lemma_buckets_change(
    before: Seq<Vec<GameStateWithHistory>>,
    after: Seq<Vec<GameStateWithHistory>>,
    d: int,
    changed: Multiset<(Seq<Seq<u8>>, Seq<Move>)>,
)
    requires
        0 <= d < before.len(),
        after.len() == before.len(),
        forall|k: int| 0 <= k < before.len() && k != d ==> #[trigger] after[k]@ == before[k]@,
        entry_views(after[d]@).to_multiset() == changed,
    ensures
        buckets_entries(after).add(entry_views(before[d]@).to_multiset()) == buckets_entries(
            before,
        ).add(changed),
    decreases before.len(),
{
    assert(buckets_entries(after) == buckets_entries(after.drop_last()).add(
        entry_views(after.last()@).to_multiset(),
    ));
    assert(buckets_entries(before) == buckets_entries(before.drop_last()).add(
        entry_views(before.last()@).to_multiset(),
    ));
    let old_d = entry_views(before[d]@).to_multiset();
    if d == before.len() - 1 {
        lemma_same_buckets(before.drop_last(), after.drop_last());
        assert(after.last() == after[d]);
        assert(before.last() == before[d]);
        assert(buckets_entries(after) == buckets_entries(before.drop_last()).add(changed));
        assert(buckets_entries(before) == buckets_entries(before.drop_last()).add(old_d));
        assert(buckets_entries(after).add(old_d) =~= buckets_entries(before).add(changed));
    } else {
        assert(after.drop_last()[d] == after[d]);
        assert(before.drop_last()[d] == before[d]);
        lemma_buckets_change(before.drop_last(), after.drop_last(), d, changed);
        assert(after.last()@ == before.last()@);
        let rest = entry_views(before.last()@).to_multiset();
        assert(buckets_entries(after) == buckets_entries(after.drop_last()).add(rest));
        assert(buckets_entries(after.drop_last()).add(old_d) == buckets_entries(
            before.drop_last(),
        ).add(changed));
        assert(buckets_entries(after).add(old_d) =~= buckets_entries(after.drop_last()).add(
            old_d,
        ).add(rest));
        assert(buckets_entries(before).add(changed) =~= buckets_entries(before.drop_last()).add(
            changed,
        ).add(rest));
    }
}

/// Buckets with the same contents hold the same entries.
proof fn lemma_same_buckets(
    before: Seq<Vec<GameStateWithHistory>>,
    after: Seq<Vec<GameStateWithHistory>>,
)
    requires
        after.len() == before.len(),
        forall|k: int| 0 <= k < before.len() ==> #[trigger] after[k]@ == before[k]@,
    ensures
        buckets_entries(after) == buckets_entries(before),
    decreases before.len(),
{
    if before.len() > 0 {
        lemma_same_buckets(before.drop_last(), after.drop_last());
        assert(after.last()@ == before.last()@);
    }
}

/// What lies in a bucket is among the entries.
proof fn lemma_bucket_within(
    buckets: Seq<Vec<GameStateWithHistory>>,
    d: int,
    x: (Seq<Seq<u8>>, Seq<Move>),
)
    requires
        0 <= d < buckets.len(),
    ensures
        buckets_entries(buckets).count(x) >= entry_views(buckets[d]@).to_multiset().count(x),
    decreases buckets.len(),
{
    if d < buckets.len() - 1 {
        lemma_bucket_within(buckets.drop_last(), d, x);
    }
}

/// Each of the entries lies in some bucket.
proof fn lemma_entry_has_bucket(
    buckets: Seq<Vec<GameStateWithHistory>>,
    x: (Seq<Seq<u8>>, Seq<Move>),
)
    requires
        buckets_entries(buckets).contains(x),
    ensures
        exists|k: int| 0 <= k < buckets.len() && entry_views(#[trigger] buckets[k]@).contains(x),
    decreases buckets.len(),
{
    if buckets.len() > 0 {
        entry_views(buckets.last()@).to_multiset_ensures();
        if entry_views(buckets.last()@).contains(x) {
            assert(entry_views(buckets[buckets.len() - 1]@).contains(x));
        } else {
            lemma_entry_has_bucket(buckets.drop_last(), x);
            let k = choose|k: int|
                0 <= k < buckets.drop_last().len() && entry_views(
                    #[trigger] buckets.drop_last()[k]@,
                ).contains(x);
            assert(buckets.drop_last()[k] == buckets[k]);
            assert(entry_views(buckets[k]@).contains(x));
        }
    }
}

} // verus!

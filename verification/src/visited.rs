//! The set of positions that a search has already met, kept in a
//! concurrent hash set under the positions' keys.

use crate::game_state::{lemma_key_injective, position_key, position_valid, GameState};
use dashmap::DashSet;
use vstd::prelude::*;

verus! {

/// `dashmap::DashSet`, a hash set that can be shared between threads.
/// Nothing inside it is visible to the verifier.
#[verifier::external_type_specification]
#[verifier::external_body]
#[verifier::reject_recursive_types(K)]
#[verifier::reject_recursive_types(S)]
pub struct ExDashSet<K, S>(DashSet<K, S>);

/// The keys that a `DashSet` of byte strings holds.
pub uninterp spec fn dashset_keys(set: &DashSet<Vec<u8>>) -> Set<Seq<u8>>;

/// `DashSet::new`: the set it makes holds no key.
#[verifier::external_body]
fn dashset_new() -> (set: DashSet<Vec<u8>>)
    ensures
        dashset_keys(&set) == Set::<Seq<u8>>::empty(),
{
    DashSet::new()
}

/// `DashSet::insert`: afterwards the set holds the key besides what it
/// held, and the result tells whether the key was not in it before. The
/// exclusive borrow keeps other holders of the set out for the call.
#[verifier::external_body]
fn dashset_insert(set: &mut DashSet<Vec<u8>>, key: Vec<u8>) -> (fresh: bool)
    ensures
        fresh == !dashset_keys(old(set)).contains(key@),
        dashset_keys(final(set)) == dashset_keys(old(set)).insert(key@),
{
    set.insert(key)
}

/// `DashSet::contains`: whether the set holds the key.
#[verifier::external_body]
fn dashset_contains(set: &DashSet<Vec<u8>>, key: &Vec<u8>) -> (found: bool)
    ensures
        found == dashset_keys(set).contains(key@),
{
    set.contains(key)
}

/// `DashSet::len`: the number of keys in the set.
#[verifier::external_body]
fn dashset_len(set: &DashSet<Vec<u8>>) -> (n: usize)
    ensures
        dashset_keys(set).finite() ==> n == dashset_keys(set).len(),
{
    set.len()
}

/// The positions met so far. It only grows: nothing is ever taken out.
pub struct VisitedSet {
    keys: DashSet<Vec<u8>>,
}

impl View for VisitedSet {
    type V = Set<Seq<u8>>;

    /// The keys of the positions in the set.
    closed spec fn view(&self) -> Set<Seq<u8>> {
        dashset_keys(&self.keys)
    }
}

impl VisitedSet {
    /// The set holds finitely many positions.
    pub open spec fn wf(&self) -> bool {
        self@.finite()
    }

    /// Whether the position is in the set.
    pub open spec fn has(&self, p: Seq<Seq<u8>>) -> bool {
        self@.contains(position_key(p))
    }

    pub fn new() -> (set: VisitedSet)
        ensures
            set.wf(),
            set@ == Set::<Seq<u8>>::empty(),
    {
        VisitedSet { keys: dashset_new() }
    }

    /// Puts the position into the set and tells whether it was new: of
    /// any number of claims of one position, only the first succeeds.
    pub fn claim(&mut self, position: &GameState) -> (first: bool)
        requires
            old(self).wf(),
            position.wf(),
        ensures
            final(self).wf(),
            first == !old(self).has(position@),
            final(self)@ == old(self)@.insert(position_key(position@)),
            final(self)@.len() == old(self)@.len() + if first {
                1nat
            } else {
                0nat
            },
    {
        let key = position.key();
        dashset_insert(&mut self.keys, key)
    }

    /// Whether the position has been claimed.
    pub fn contains(&self, position: &GameState) -> (found: bool)
        requires
            position.wf(),
        ensures
            found == self.has(position@),
    {
        let key = position.key();
        dashset_contains(&self.keys, &key)
    }

    /// How many positions the set holds.
    pub fn len(&self) -> (n: usize)
        requires
            self.wf(),
        ensures
            n == self@.len(),
    {
        dashset_len(&self.keys)
    }
}

/// Claiming a position that is in the set changes nothing, so a position
/// claimed twice is in the set once.
pub proof fn lemma_claim_twice(visited: Set<Seq<u8>>, p: Seq<Seq<u8>>)
    requires
        visited.finite(),
    ensures
        visited.insert(position_key(p)).contains(position_key(p)),
        visited.insert(position_key(p)).insert(position_key(p)) == visited.insert(
            position_key(p),
        ),
        visited.insert(position_key(p)).insert(position_key(p)).len() == visited.insert(
            position_key(p),
        ).len(),
{
    assert(visited.insert(position_key(p)).insert(position_key(p)) =~= visited.insert(
        position_key(p),
    ));
}

/// After a claim the set holds, of the valid positions, the one claimed
/// and those it held before: no other position is taken for it.
pub proof fn lemma_claim_is_exact(visited: Set<Seq<u8>>, p: Seq<Seq<u8>>, q: Seq<Seq<u8>>)
    requires
        position_valid(p),
        position_valid(q),
    ensures
        visited.insert(position_key(p)).contains(position_key(q)) <==> (q == p || visited.contains(
            position_key(q),
        )),
{
    if position_key(q) == position_key(p) {
        lemma_key_injective(p, q);
    }
}

} // verus!

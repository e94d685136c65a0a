//! The transposition table, and the random order in which a search may try
//! actions.

use vstd::prelude::*;
use dashmap::DashMap;
use rand::rngs::StdRng;
use rand::seq::SliceRandom;
use rand::SeedableRng;

verus! {

/// `dashmap::DashMap`, an opaque type here; what a table holds is `entries`.
#[verifier::external_type_specification]
#[verifier::external_body]
#[verifier::reject_recursive_types(K)]
#[verifier::reject_recursive_types(V)]
#[verifier::reject_recursive_types(S)]
pub struct ExDashMap<K, V, S>(DashMap<K, V, S>);

/// `rand::rngs::StdRng`, an opaque type here.
#[verifier::external_type_specification]
#[verifier::external_body]
pub struct ExStdRng(StdRng);

/// A table from packed states to values for player 0 (1 = player 0 wins,
/// 0 = tie, -1 = player 1 wins).
pub type TranspositionTable = DashMap<u64, i8>;

/// What a table holds.
pub uninterp spec fn entries(table: TranspositionTable) -> Map<u64, i8>;

/// Calls `DashMap::get` and copies the value out: the value stored under the
/// key, if there is one.
#[verifier::external_body]
pub(crate) fn table_get(table: &TranspositionTable, key: u64) -> (value: Option<i8>)
    ensures
        value == if entries(*table).contains_key(key) {
            Some(entries(*table)[key])
        } else {
            None
        },
{
    table.get(&key).map(|entry| *entry)
}

/// Calls `DashMap::insert`: the key leads to the value, whatever it led to
/// before, and the rest of the table stays as it was. The table is taken by
/// exclusive reference, so that nobody else writes to it meanwhile.
#[verifier::external_body]
pub(crate) fn table_insert(table: &mut TranspositionTable, key: u64, value: i8)
    ensures
        entries(*final(table)) == entries(*old(table)).insert(key, value),
{
    table.insert(key, value);
}

/// Calls `DashMap::into_iter` and collects what it yields: every entry once, in
/// an order that is left open.
#[verifier::external_body]
pub(crate) fn table_into_entries(table: TranspositionTable) -> (list: Vec<(u64, i8)>)
    ensures
        forall|i: int| 0 <= i < list@.len() ==> {
            &&& entries(table).contains_key((#[trigger] list@[i]).0)
            &&& entries(table)[list@[i].0] == list@[i].1
        },
        forall|i: int, j: int| 0 <= i < j < list@.len() ==> (#[trigger] list@[i]).0 != (
        #[trigger] list@[j]).0,
        forall|k: u64| #[trigger] entries(table).contains_key(k) ==> list@.contains(
            (k, entries(table)[k]),
        ),
{
    table.into_iter().collect()
}

/// Calls `StdRng::seed_from_u64`. Of the generator that comes back nothing is
/// stated: what it will yield is left to chance.
#[verifier::external_body]
pub(crate) fn seeded_rng(seed: u64) -> (rng: StdRng) {
    StdRng::seed_from_u64(seed)
}

/// Calls `SliceRandom::shuffle`: the same actions, in an order that the
/// generator picks.
#[verifier::external_body]
pub(crate) fn shuffle_actions(actions: &mut Vec<(u8, u8, u8)>, rng: &mut StdRng)
    ensures
        final(actions)@.to_multiset() == old(actions)@.to_multiset(),
{
    actions.shuffle(rng);
}

} // verus!

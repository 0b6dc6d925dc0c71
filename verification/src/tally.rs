//! Tables and sets kept in the `FxHashMap` and the `FxHashSet` of the
//! `rustc_hash` crate, under keys that are tuples of integers.

use vstd::prelude::*;
use rustc_hash::FxHashMap;
use rustc_hash::FxHashSet;

verus! {

/// The hasher builder of `rustc_hash`; nothing is known of it here.
#[verifier::external_type_specification]
#[verifier::external_body]
pub struct ExFxBuildHasher(rustc_hash::FxBuildHasher);

/// Four price changes in a row.
pub type Changes = (isize, isize, isize, isize);

/// A key that is an integer or a tuple of integers: two keys are the same
/// key to a table exactly where they are equal.
pub trait PlainKey {

}

impl PlainKey for isize {

}

impl PlainKey for (isize, isize) {

}

impl PlainKey for (usize, usize) {

}

impl PlainKey for (isize, isize, isize) {

}

impl PlainKey for (isize, isize, isize, isize) {

}

/// `table` keeps `value` under some key.
pub open spec fn kept_somewhere<K, V>(table: Map<K, V>, value: V) -> bool {
    exists|key: K| #[trigger] table.contains_key(key) && table[key] == value
}

/// Makes an empty table with `FxHashMap::default`.
#[verifier::external_body]
pub(crate) fn tally_new<K: PlainKey + Copy + Eq + core::hash::Hash, V: Copy>() -> (table: FxHashMap<K, V>)
    ensures
        table@.dom() == Set::<K>::empty(),
{
    FxHashMap::default()
}

/// Looks `key` up with `HashMap::get`: the value kept under `key`, if one
/// is.
#[verifier::external_body]
pub(crate) fn tally_get<K: PlainKey + Copy + Eq + core::hash::Hash, V: Copy>(table: &FxHashMap<K, V>, key: K) -> (kept: Option<V>)
    ensures
        kept == (if table@.contains_key(key) {
            Some(table@[key])
        } else {
            None::<V>
        }),
{
    table.get(&key).copied()
}

/// Keeps `value` under `key` with `HashMap::insert`, in place of what was
/// kept there; every other key keeps what it had.
#[verifier::external_body]
pub(crate) fn tally_insert<K: PlainKey + Copy + Eq + core::hash::Hash, V: Copy>(table: &mut FxHashMap<K, V>, key: K, value: V)
    ensures
        final(table)@ == old(table)@.insert(key, value),
{
    table.insert(key, value);
}

/// The values that the table keeps, as `HashMap::values` hands them out:
/// one for each key, in no order that could be named.
#[verifier::external_body]
pub(crate) fn tally_values<K: PlainKey + Copy + Eq + core::hash::Hash, V: Copy>(table: &FxHashMap<K, V>) -> (values: Vec<V>)
    ensures
        forall|i: int| 0 <= i < values.len() ==> kept_somewhere(table@, #[trigger] values[i]),
        forall|key: K| #[trigger] table@.contains_key(key) ==> values@.contains(table@[key]),
{
    table.values().copied().collect()
}

/// The keys of the table, as `HashMap::keys` hands them out: each once, in
/// no order that could be named.
#[verifier::external_body]
pub(crate) fn tally_keys<K: PlainKey + Copy + Eq + core::hash::Hash, V: Copy>(table: &FxHashMap<K, V>) -> (keys: Vec<K>)
    ensures
        keys@.no_duplicates(),
        forall|key: K| keys@.contains(key) ==> table@.contains_key(key),
        forall|key: K| table@.contains_key(key) ==> keys@.contains(key),
{
    table.keys().copied().collect()
}

/// Makes an empty set with `FxHashSet::default`.
#[verifier::external_body]
pub(crate) fn set_new<K: PlainKey + Copy + Eq + core::hash::Hash>() -> (set: FxHashSet<K>)
    ensures
        set@ == Set::<K>::empty(),
{
    FxHashSet::default()
}

/// Whether the set holds `key`, as `HashSet::contains` says.
#[verifier::external_body]
pub(crate) fn set_contains<K: PlainKey + Copy + Eq + core::hash::Hash>(set: &FxHashSet<K>, key: K) -> (held: bool)
    ensures
        held == set@.contains(key),
{
    set.contains(&key)
}

/// Puts `key` into the set with `HashSet::insert`.
#[verifier::external_body]
pub(crate) fn set_insert<K: PlainKey + Copy + Eq + core::hash::Hash>(set: &mut FxHashSet<K>, key: K)
    ensures
        final(set)@ == old(set)@.insert(key),
{
    set.insert(key);
}

/// What the set holds, as `HashSet::iter` hands it out: each key once, in no
/// order that could be named.
#[verifier::external_body]
pub(crate) fn set_keys<K: PlainKey + Copy + Eq + core::hash::Hash>(set: &FxHashSet<K>) -> (keys: Vec<K>)
    ensures
        keys@.no_duplicates(),
        forall|key: K| keys@.contains(key) ==> set@.contains(key),
        forall|key: K| set@.contains(key) ==> keys@.contains(key),
{
    set.iter().copied().collect()
}


/// The byte strings that a set of byte strings holds.
pub uninterp spec fn byte_strings(set: FxHashSet<Vec<u8>>) -> Set<Seq<u8>>;

/// The byte strings of `all`.
pub open spec fn strings_of(all: Seq<Vec<u8>>) -> Seq<Seq<u8>> {
    Seq::new(all.len(), |i: int| all[i]@)
}

/// Makes an empty set of byte strings with `FxHashSet::default`.
#[verifier::external_body]
pub(crate) fn strings_new() -> (set: FxHashSet<Vec<u8>>)
    ensures
        byte_strings(set) == Set::<Seq<u8>>::empty(),
{
    FxHashSet::default()
}

/// Puts the byte string `s` into the set with `HashSet::insert`.
#[verifier::external_body]
pub(crate) fn strings_insert(set: &mut FxHashSet<Vec<u8>>, s: Vec<u8>)
    ensures
        byte_strings(*final(set)) == byte_strings(*old(set)).insert(s@),
{
    set.insert(s);
}

/// Whether the set holds the byte string `s`, as `HashSet::contains` says.
#[verifier::external_body]
pub(crate) fn strings_contains(set: &FxHashSet<Vec<u8>>, s: &[u8]) -> (held: bool)
    ensures
        held == byte_strings(*set).contains(s@),
{
    set.contains(s)
}

/// What the set holds, as `HashSet::iter` hands it out: each byte string
/// once, in no order that could be named.
#[verifier::external_body]
pub(crate) fn strings_all(set: &FxHashSet<Vec<u8>>) -> (all: Vec<Vec<u8>>)
    ensures
        strings_of(all@).no_duplicates(),
        strings_of(all@).to_set() == byte_strings(*set),
{
    set.iter().cloned().collect()
}

/// The values that a table keeps under byte strings.
pub uninterp spec fn byte_table(table: FxHashMap<Vec<u8>, isize>) -> Map<Seq<u8>, isize>;

/// Makes an empty table under byte strings with `FxHashMap::default`.
#[verifier::external_body]
pub(crate) fn table_new() -> (table: FxHashMap<Vec<u8>, isize>)
    ensures
        byte_table(table).dom() == Set::<Seq<u8>>::empty(),
{
    FxHashMap::default()
}

/// Looks the byte string `key` up with `HashMap::get`: the value kept under
/// it, if one is.
#[verifier::external_body]
pub(crate) fn table_get(table: &FxHashMap<Vec<u8>, isize>, key: &[u8]) -> (kept: Option<isize>)
    ensures
        kept == (if byte_table(*table).contains_key(key@) {
            Some(byte_table(*table)[key@])
        } else {
            None::<isize>
        }),
{
    table.get(key).copied()
}

/// Keeps `value` under `key` with `HashMap::entry` and `Entry::or_insert`:
/// only where nothing is kept under `key` yet.
#[verifier::external_body]
pub(crate) fn table_keep(table: &mut FxHashMap<Vec<u8>, isize>, key: Vec<u8>, value: isize)
    ensures
        byte_table(*final(table)) == (if byte_table(*old(table)).contains_key(key@) {
            byte_table(*old(table))
        } else {
            byte_table(*old(table)).insert(key@, value)
        }),
{
    table.entry(key).or_insert(value);
}

/// The byte strings under which the table keeps a value, as `HashMap::keys`
/// hands them out: each once, in no order that could be named.
#[verifier::external_body]
pub(crate) fn table_names(table: &FxHashMap<Vec<u8>, isize>) -> (all: Vec<Vec<u8>>)
    ensures
        strings_of(all@).no_duplicates(),
        strings_of(all@).to_set() == byte_table(*table).dom(),
{
    table.keys().cloned().collect()
}

} // verus!

//! The ordered map from rule names to rules, kept in an `indexmap::IndexMap`.
use crate::ast::Rule;
use indexmap::IndexMap;
use vstd::prelude::*;

verus! {

#[verifier::external_type_specification]
#[verifier::external_body]
#[verifier::reject_recursive_types(K)]
#[verifier::reject_recursive_types(V)]
#[verifier::reject_recursive_types(S)]
pub struct ExIndexMap<K, V, S>(IndexMap<K, V, S>);

/// The entries of a rule map, in insertion order, each key as its characters.
pub uninterp spec fn rule_entries(m: IndexMap<String, Rule>) -> Seq<(Seq<char>, Rule)>;

/// No two entries share a key.
pub open spec fn keys_unique(e: Seq<(Seq<char>, Rule)>) -> bool {
    forall|i: int, j: int| 0 <= i < j < e.len() ==> (#[trigger] e[i]).0 != (#[trigger] e[j]).0
}

/// Relies on `IndexMap::new`: a new map has no entries.
#[verifier::external_body]
pub(crate) fn rules_new() -> (r: IndexMap<String, Rule>)
    ensures
        rule_entries(r) == Seq::<(Seq<char>, Rule)>::empty(),
{
    IndexMap::new()
}

/// Relies on `IndexMap::len`: the number of entries.
#[verifier::external_body]
pub(crate) fn rules_len(m: &IndexMap<String, Rule>) -> (r: usize)
    ensures
        r == rule_entries(*m).len(),
{
    m.len()
}

/// Relies on `IndexMap::get_index_of`: the position of the entry whose key is `key`.
#[verifier::external_body]
pub(crate) fn rules_index_of(m: &IndexMap<String, Rule>, key: &str) -> (r: Option<usize>)
    ensures
        r matches Some(i) ==> i < rule_entries(*m).len() && rule_entries(*m)[i as int].0 == key@,
        r is None ==> forall|i: int|
            0 <= i < rule_entries(*m).len() ==> (#[trigger] rule_entries(*m)[i]).0 != key@,
{
    m.get_index_of(key)
}

/// Relies on `IndexMap::insert`: a key that is not yet present goes in last.
#[verifier::external_body]
pub(crate) fn rules_insert(m: &mut IndexMap<String, Rule>, key: String, value: Rule)
    requires
        forall|i: int|
            0 <= i < rule_entries(*old(m)).len() ==> (#[trigger] rule_entries(*old(m))[i]).0
                != key@,
    ensures
        rule_entries(*final(m)) == rule_entries(*old(m)).push((key@, value)),
{
    m.insert(key, value);
}

/// Relies on `IndexMap::get_index`: the entry at position `i`.
#[verifier::external_body]
pub(crate) fn rules_get_index<'a>(m: &'a IndexMap<String, Rule>, i: usize) -> (r: (
    &'a String,
    &'a Rule,
))
    requires
        i < rule_entries(*m).len(),
    ensures
        r.0@ == rule_entries(*m)[i as int].0,
        *r.1 == rule_entries(*m)[i as int].1,
{
    m.get_index(i).unwrap()
}

} // verus!

//! Ordered string tables: `IndexMap` keyed by strings, seen through the
//! sequence of its entries.
//!
//! Every function of this file calls one method of `IndexMap`, and its
//! contract states, over the entries, what the method's documentation says.
//! A map never holds a key twice: each function that changes a map or hands
//! one out says so of the map it leaves.

use crate::assoc::{distinct_keys, has_key, inserted, lookup, swap_removed};
use indexmap::IndexMap;
use vstd::prelude::*;

verus! {

#[verifier::external_type_specification]
#[verifier::external_body]
#[verifier::reject_recursive_types(K)]
#[verifier::reject_recursive_types(V)]
#[verifier::reject_recursive_types(S)]
pub struct ExIndexMap<K, V, S>(IndexMap<K, V, S>);

/// Translated texts by key.
pub type Table = IndexMap<String, String>;

/// Tables by locale; or, transposed, the texts of each key by locale.
pub type Translations = IndexMap<String, IndexMap<String, String>>;

/// The mathematical content of a `Table`.
pub type Entries = Seq<(Seq<char>, Seq<char>)>;

/// The mathematical content of a `Translations`.
pub type Tables = Seq<(Seq<char>, Seq<(Seq<char>, Seq<char>)>)>;

/// The entries of a table, in order.
pub uninterp spec fn table_entries(table: Table) -> Seq<(Seq<char>, Seq<char>)>;

/// The entries of a set of tables, in order, each table by its own entries.
pub uninterp spec fn translation_entries(data: Translations) -> Seq<
    (Seq<char>, Seq<(Seq<char>, Seq<char>)>),
>;

/// `a` comes before `b` in the order of strings: at the first position where
/// they differ `a` has the smaller character, or `a` is a proper prefix of `b`.
pub open spec fn text_lt(a: Seq<char>, b: Seq<char>) -> bool
    decreases a.len(),
{
    if b.len() == 0 {
        false
    } else if a.len() == 0 {
        true
    } else if a[0] != b[0] {
        (a[0] as u32) < (b[0] as u32)
    } else {
        text_lt(a.drop_first(), b.drop_first())
    }
}

/// The keys of `s` ascend strictly.
pub open spec fn ascending_keys<V>(s: Seq<(Seq<char>, V)>) -> bool {
    forall|i: int, j: int| 0 <= i < j < s.len() ==> text_lt((#[trigger] s[i]).0, (#[trigger] s[j]).0)
}

/// `sorted` holds the entries of `s`, ordered by key.
pub open spec fn sorted_by_key<V>(sorted: Seq<(Seq<char>, V)>, s: Seq<(Seq<char>, V)>) -> bool {
    sorted.to_multiset() == s.to_multiset() && ascending_keys(sorted)
}

/// `IndexMap::new`: an empty table.
#[verifier::external_body]
pub(crate) fn table_new() -> (table: Table)
    ensures
        table_entries(table) == Seq::<(Seq<char>, Seq<char>)>::empty(),
{
    IndexMap::new()
}

/// `IndexMap::len`: the number of entries.
#[verifier::external_body]
pub(crate) fn table_len(table: &Table) -> (n: usize)
    ensures
        n == table_entries(*table).len(),
{
    table.len()
}

/// `IndexMap::get_index`, handing out copies of the key and the value at
/// position `index`.
#[verifier::external_body]
pub(crate) fn table_get_index(table: &Table, index: usize) -> (entry: (String, String))
    requires
        index < table_entries(*table).len(),
    ensures
        (entry.0@, entry.1@) == table_entries(*table)[index as int],
{
    let (key, value) = table.get_index(index).unwrap();
    (key.clone(), value.clone())
}

/// `IndexMap::get`, handing out a copy of the value stored under `key`.
#[verifier::external_body]
pub(crate) fn table_get(table: &Table, key: &str) -> (value: Option<String>)
    ensures
        value.deep_view() == lookup(table_entries(*table), key@),
{
    table.get(key).cloned()
}

/// `IndexMap::insert`: a key that is present keeps its place and takes the
/// new value; a new key is appended. The map holds each key once.
#[verifier::external_body]
pub(crate) fn table_insert(table: &mut Table, key: String, value: String)
    ensures
        table_entries(*final(table)) == inserted(table_entries(*old(table)), key@, value@),
        distinct_keys(table_entries(*final(table))),
{
    table.insert(key, value);
}

/// `IndexMap::swap_remove`: the entry of `key` is taken out, the last entry
/// moves into its place, and its value is returned; nothing happens for a key
/// that is absent. The map holds each key once.
#[verifier::external_body]
pub(crate) fn table_swap_remove(table: &mut Table, key: &str) -> (value: Option<String>)
    ensures
        value.deep_view() == lookup(table_entries(*old(table)), key@),
        table_entries(*final(table)) == swap_removed(table_entries(*old(table)), key@),
        distinct_keys(table_entries(*final(table))),
{
    table.swap_remove(key)
}

/// `IndexMap::sort_unstable_keys`: the same entries, ordered by key in the
/// order of `String`.
#[verifier::external_body]
pub(crate) fn table_sort_keys(table: &mut Table)
    ensures
        sorted_by_key(table_entries(*final(table)), table_entries(*old(table))),
        distinct_keys(table_entries(*final(table))),
{
    table.sort_unstable_keys();
}

/// `IndexMap::new`: an empty set of tables.
#[verifier::external_body]
pub(crate) fn translations_new() -> (data: Translations)
    ensures
        translation_entries(data) == Seq::<(Seq<char>, Seq<(Seq<char>, Seq<char>)>)>::empty(),
{
    IndexMap::new()
}

/// `IndexMap::len`: the number of tables.
#[verifier::external_body]
pub(crate) fn translations_len(data: &Translations) -> (n: usize)
    ensures
        n == translation_entries(*data).len(),
{
    data.len()
}

/// `IndexMap::get_index`, handing out copies of the key and the table at
/// position `index`. The table, a map, holds each key once.
#[verifier::external_body]
pub(crate) fn translations_get_index(data: &Translations, index: usize) -> (entry: (String, Table))
    requires
        index < translation_entries(*data).len(),
    ensures
        (entry.0@, table_entries(entry.1)) == translation_entries(*data)[index as int],
        distinct_keys(table_entries(entry.1)),
{
    let (key, table) = data.get_index(index).unwrap();
    (key.clone(), table.clone())
}

/// `IndexMap::get`, handing out a copy of the table stored under `key`. The
/// table, a map, holds each key once.
#[verifier::external_body]
pub(crate) fn translations_get(data: &Translations, key: &str) -> (table: Option<Table>)
    ensures
        match table {
            Some(found) => lookup(translation_entries(*data), key@) == Some(table_entries(found))
                && distinct_keys(table_entries(found)),
            None => !has_key(translation_entries(*data), key@),
        },
{
    data.get(key).cloned()
}

/// `IndexMap::insert`: a key that is present keeps its place and takes the
/// new table; a new key is appended. The map holds each key once.
#[verifier::external_body]
pub(crate) fn translations_insert(data: &mut Translations, key: String, table: Table)
    ensures
        translation_entries(*final(data)) == inserted(
            translation_entries(*old(data)),
            key@,
            table_entries(table),
        ),
        distinct_keys(translation_entries(*final(data))),
{
    data.insert(key, table);
}

/// `IndexMap::sort_unstable_keys`: the same tables, ordered by key in the
/// order of `String`.
#[verifier::external_body]
pub(crate) fn translations_sort_keys(data: &mut Translations)
    ensures
        sorted_by_key(translation_entries(*final(data)), translation_entries(*old(data))),
        distinct_keys(translation_entries(*final(data))),
{
    data.sort_unstable_keys();
}

} // verus!

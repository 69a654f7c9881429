use vstd::prelude::*;

use crate::val::bytes_lt;

verus! {

/// A handle on one named tree of the store: an ordered map from byte strings to byte strings.
#[verifier::external_type_specification]
#[verifier::external_body]
pub struct ExTree(sled::Tree);

/// An open store, from which named trees are opened.
#[verifier::external_type_specification]
#[verifier::external_body]
pub struct ExDb(sled::Db);

/// A failure that the store reports; the library maps each to `DbError::Store`.
#[verifier::external_type_specification]
#[verifier::external_body]
pub struct ExStoreError(sled::Error);

/// The key-value pairs that a tree holds.
///
/// sled hands out copies of one shared handle for each tree name, so this stands for the
/// contents only while a single handle is written. The library keeps it so: a table's tree
/// is named by the table's name, which is registered once and holds no zero byte and is not
/// `tables`; an index tree is named by its table's name, a zero byte and the
/// length-prefixed column names, so it differs from every table tree and from the index
/// trees of other tables and other column lists; a table keeps one index per column list.
/// Each handle is written only through `tree_insert`, `tree_remove` and `tree_clear`.
pub uninterp spec fn tree_map(t: sled::Tree) -> Map<Seq<u8>, Seq<u8>>;

/// The pairs of a list of byte-string entries.
pub open spec fn entries_view(es: Seq<(Vec<u8>, Vec<u8>)>) -> Seq<(Seq<u8>, Seq<u8>)> {
    es.map_values(|e: (Vec<u8>, Vec<u8>)| (e.0@, e.1@))
}

/// Whether `es` lists the pairs of `m`, each key once.
pub open spec fn lists_map(es: Seq<(Seq<u8>, Seq<u8>)>, m: Map<Seq<u8>, Seq<u8>>) -> bool {
    &&& forall|i: int, j: int| 0 <= i < es.len() && 0 <= j < es.len() && i != j
        ==> #[trigger] es[i].0 != #[trigger] es[j].0
    &&& forall|i: int|
        0 <= i < es.len() ==> m.contains_key(#[trigger] es[i].0) && m[es[i].0] == es[i].1
    &&& forall|k: Seq<u8>| #[trigger]
        m.contains_key(k) ==> exists|i: int| 0 <= i < es.len() && es[i].0 == k
}

/// Whether the keys of `es` increase strictly, in lexicographic byte order.
pub open spec fn ascending(es: Seq<(Seq<u8>, Seq<u8>)>) -> bool {
    forall|i: int, j: int| 0 <= i < j < es.len()
        ==> bytes_lt(#[trigger] es[i].0, #[trigger] es[j].0)
}

/// Relies on `sled::Db::open_tree`: it opens the tree of that name, creating it when absent.
#[verifier::external_body]
pub(crate) fn open_tree(db: &sled::Db, name: &[u8]) -> (r: Result<sled::Tree, sled::Error>) {
    db.open_tree(name)
}

/// Relies on `sled::Tree::get`: `Some(v)` when the tree maps `key` to `v`, `None` when
/// it holds no such key.
#[verifier::external_body]
pub(crate) fn tree_get(t: &sled::Tree, key: &[u8]) -> (r: Result<Option<Vec<u8>>, sled::Error>)
    ensures
        r is Ok ==> (r->Ok_0 is Some <==> tree_map(*t).contains_key(key@)),
        r is Ok && r->Ok_0 is Some ==> r->Ok_0->Some_0@ == tree_map(*t)[key@],
{
    match t.get(key) {
        Ok(Some(v)) => Ok(Some(v.to_vec())),
        Ok(None) => Ok(None),
        Err(e) => Err(e),
    }
}

/// Relies on `sled::Tree::contains_key`: whether the tree holds `key`.
#[verifier::external_body]
pub(crate) fn tree_contains(t: &sled::Tree, key: &[u8]) -> (r: Result<bool, sled::Error>)
    ensures
        r is Ok ==> r->Ok_0 == tree_map(*t).contains_key(key@),
{
    t.contains_key(key)
}

/// Relies on `sled::Tree::is_empty`: `true` only when no entry can be read from the tree.
#[verifier::external_body]
pub(crate) fn tree_is_empty(t: &sled::Tree) -> (r: bool)
    ensures
        r ==> tree_map(*t).dom().is_empty(),
{
    t.is_empty()
}

/// Relies on `sled::Tree::insert`: on success the tree maps `key` to `value`; a failed
/// write either took effect or left the tree as it was. The outside method takes `&self`;
/// this one takes `&mut` so that the change shows in the handle's value.
#[verifier::external_body]
pub(crate) fn tree_insert(
    t: &mut sled::Tree,
    key: &[u8],
    value: &[u8],
) -> (r: Result<(), sled::Error>)
    ensures
        r is Ok ==> tree_map(*final(t)) == tree_map(*old(t)).insert(key@, value@),
        r is Err ==> tree_map(*final(t)) == tree_map(*old(t))
            || tree_map(*final(t)) == tree_map(*old(t)).insert(key@, value@),
{
    match t.insert(key, value) {
        Ok(_) => Ok(()),
        Err(e) => Err(e),
    }
}

/// Relies on `sled::Tree::remove`: on success the tree no longer holds `key`; a failed
/// removal either took effect or left the tree as it was.
#[verifier::external_body]
pub(crate) fn tree_remove(t: &mut sled::Tree, key: &[u8]) -> (r: Result<(), sled::Error>)
    ensures
        r is Ok ==> tree_map(*final(t)) == tree_map(*old(t)).remove(key@),
        r is Err ==> tree_map(*final(t)) == tree_map(*old(t))
            || tree_map(*final(t)) == tree_map(*old(t)).remove(key@),
{
    match t.remove(key) {
        Ok(_) => Ok(()),
        Err(e) => Err(e),
    }
}

/// Relies on `sled::Tree::clear`: it removes every key that it reads from the tree, so on
/// success the tree is empty.
#[verifier::external_body]
pub(crate) fn tree_clear(t: &mut sled::Tree) -> (r: Result<(), sled::Error>)
    ensures
        r is Ok ==> tree_map(*final(t)).dom().is_empty(),
{
    t.clear()
}

/// Relies on `sled::Tree::iter`: it yields every entry of the tree once, in ascending key
/// order, so no key twice.
#[verifier::external_body]
pub(crate) fn tree_entries(t: &sled::Tree) -> (r: Result<Vec<(Vec<u8>, Vec<u8>)>, sled::Error>)
    ensures
        r is Ok ==> lists_map(entries_view(r->Ok_0@), tree_map(*t)),
        r is Ok ==> ascending(entries_view(r->Ok_0@)),
{
    t.iter().map(|e| e.map(|(k, v)| (k.to_vec(), v.to_vec()))).collect()
}

} // verus!

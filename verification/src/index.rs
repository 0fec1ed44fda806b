//! The in-memory key index: a lock-free ordered map from key to the location
//! of the key's live `Set` record, held in a `crossbeam_skiplist::SkipMap` so
//! that concurrent readers can look keys up without blocking the writer.

use vstd::prelude::*;
use crossbeam_skiplist::SkipMap;

verus! {

/// The location of one `Set` record: the segment generation holding it, and
/// the record text's start offset and length within that segment.
#[derive(Clone, Copy, PartialEq, Eq, Structural, Debug)]
pub struct CommandIndex {
    pub version: u64,
    pub start: usize,
    pub len: usize,
}

#[verifier::external_type_specification]
#[verifier::external_body]
#[verifier::reject_recursive_types(K)]
#[verifier::reject_recursive_types(V)]
pub struct ExSkipMap<K, V>(SkipMap<K, V>);

/// What the skip map holds: its entries as a map from key text to location.
pub uninterp spec fn skipmap_view(m: SkipMap<String, CommandIndex>) -> Map<
    Seq<char>,
    CommandIndex,
>;

/// Relies on `SkipMap::new`: a new map holds no entries.
#[verifier::external_body]
pub fn index_new() -> (r: SkipMap<String, CommandIndex>)
    ensures
        skipmap_view(r) =~= Map::empty(),
{
    SkipMap::new()
}

/// Relies on `SkipMap::get`: yields the entry with the given key, if any.
#[verifier::external_body]
pub fn index_get(m: &SkipMap<String, CommandIndex>, key: &str) -> (r: Option<CommandIndex>)
    ensures
        r == if skipmap_view(*m).dom().contains(key@) {
            Some(skipmap_view(*m)[key@])
        } else {
            None::<CommandIndex>
        },
{
    m.get(key).map(|e| *e.value())
}

/// Relies on `SkipMap::insert`: associates the key with the value, replacing
/// any entry the key had.
#[verifier::external_body]
pub fn index_insert(m: &mut SkipMap<String, CommandIndex>, key: String, v: CommandIndex)
    ensures
        skipmap_view(*final(m)) == skipmap_view(*old(m)).insert(key@, v),
{
    m.insert(key, v);
}

/// Relies on `SkipMap::remove`: removes the key's entry and yields it, or
/// yields `None` when the key is absent.
#[verifier::external_body]
pub fn index_remove(m: &mut SkipMap<String, CommandIndex>, key: &str) -> (r: Option<CommandIndex>)
    ensures
        skipmap_view(*final(m)) == skipmap_view(*old(m)).remove(key@),
        r == if skipmap_view(*old(m)).dom().contains(key@) {
            Some(skipmap_view(*old(m))[key@])
        } else {
            None::<CommandIndex>
        },
{
    m.remove(key).map(|e| *e.value())
}

/// Relies on `SkipMap::iter`: visits every entry exactly once.
#[verifier::external_body]
pub fn index_entries(m: &SkipMap<String, CommandIndex>) -> (r: Vec<(String, CommandIndex)>)
    ensures
        forall|i: int|
            0 <= i < r@.len() ==> skipmap_view(*m).contains_pair((#[trigger] r@[i]).0@, r@[i].1),
        forall|i: int, j: int|
            0 <= i < j < r@.len() ==> (#[trigger] r@[i]).0@ != (#[trigger] r@[j]).0@,
        forall|k: Seq<char>|
            #[trigger] skipmap_view(*m).dom().contains(k) ==> exists|i: int|
                0 <= i < r@.len() && (#[trigger] r@[i]).0@ == k,
{
    m.iter().map(|e| (e.key().clone(), *e.value())).collect()
}

} // verus!

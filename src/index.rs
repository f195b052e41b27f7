use crate::log_pointer::LogPointer;
use crossbeam_skiplist::SkipMap;
use vstd::prelude::*;

verus! {

#[verifier::external_type_specification]
#[verifier::external_body]
#[verifier::reject_recursive_types(K)]
#[verifier::reject_recursive_types(V)]
pub struct ExSkipMap<K, V>(SkipMap<K, V>);

/// What a skip list of the index holds: each key's characters and its pointer.
pub uninterp spec fn index_entries(m: SkipMap<String, LogPointer>) -> Map<Seq<char>, LogPointer>;

/// Relies on `SkipMap::new`: the new map is empty.
#[verifier::external_body]
pub(crate) fn index_new() -> (r: SkipMap<String, LogPointer>)
    ensures
        index_entries(r).dom() == Set::<Seq<char>>::empty(),
{
    SkipMap::new()
}

/// Relies on `SkipMap::get`: the entry of `key`, if there is one.
#[verifier::external_body]
pub(crate) fn index_get(m: &SkipMap<String, LogPointer>, key: &String) -> (r: Option<LogPointer>)
    ensures
        match r {
            Some(p) => index_entries(*m).contains_key(key@) && index_entries(*m)[key@] == p,
            None => !index_entries(*m).contains_key(key@),
        },
{
    m.get(key).map(|e| *e.value())
}

/// Relies on `SkipMap::insert`: an existing entry of `key` is replaced.
#[verifier::external_body]
pub(crate) fn index_insert(m: &mut SkipMap<String, LogPointer>, key: String, p: LogPointer)
    ensures
        index_entries(*final(m)) == index_entries(*old(m)).insert(key@, p),
{
    m.insert(key, p);
}

/// Relies on `SkipMap::remove`: the entry of `key` leaves the map and is returned.
#[verifier::external_body]
pub(crate) fn index_remove(m: &mut SkipMap<String, LogPointer>, key: &String) -> (r: Option<LogPointer>)
    ensures
        index_entries(*final(m)) == index_entries(*old(m)).remove(key@),
        match r {
            Some(p) => index_entries(*old(m)).contains_key(key@) && index_entries(*old(m))[key@] == p,
            None => !index_entries(*old(m)).contains_key(key@),
        },
{
    m.remove(key).map(|e| *e.value())
}

/// Relies on `SkipMap::iter`: with no concurrent writer, it visits every entry
/// once, in ascending order of keys.
#[verifier::external_body]
pub(crate) fn index_snapshot(m: &SkipMap<String, LogPointer>) -> (r: Vec<(String, LogPointer)>)
    ensures
        forall|i: int|
            0 <= i < r@.len() ==> index_entries(*m).contains_key(#[trigger] r@[i].0@)
                && index_entries(*m)[r@[i].0@] == r@[i].1,
        forall|k: Seq<char>|
            index_entries(*m).contains_key(k) ==> exists|i: int| 0 <= i < r@.len() && #[trigger] r@[i].0@ == k,
        forall|i: int, j: int| 0 <= i < j < r@.len() ==> r@[i].0@ != r@[j].0@,
{
    m.iter().map(|e| (e.key().clone(), *e.value())).collect()
}

} // verus!

use vstd::prelude::*;
use cosmwasm_std::MemoryStorage;
use crate::keys::lex_lt;

verus! {

#[verifier::external_type_specification]
#[verifier::external_body]
pub struct ExMemoryStorage(MemoryStorage);

/// The key-value pairs that a storage holds.
pub uninterp spec fn storage_entries(s: MemoryStorage) -> Map<Seq<u8>, Seq<u8>>;

/// The keys of a run of scanned records.
pub open spec fn record_keys(r: Seq<(Vec<u8>, Vec<u8>)>) -> Seq<Seq<u8>> {
    r.map_values(|e: (Vec<u8>, Vec<u8>)| e.0@)
}

/// Relies on cosmwasm_std::MemoryStorage::new: a storage with no entries.
#[verifier::external_body]
pub(crate) fn storage_new() -> (r: MemoryStorage)
    ensures
        forall|k: Seq<u8>| !(#[trigger] storage_entries(r).contains_key(k)),
{
    MemoryStorage::new()
}

/// Relies on <MemoryStorage as cosmwasm_std::Storage>::get: the value under
/// the key, if there is one.
#[verifier::external_body]
pub(crate) fn storage_get(s: &MemoryStorage, key: &Vec<u8>) -> (r: Option<Vec<u8>>)
    ensures
        match r {
            Some(v) => storage_entries(*s).contains_key(key@) && v@ == storage_entries(*s)[key@],
            None => !storage_entries(*s).contains_key(key@),
        },
{
    cosmwasm_std::Storage::get(s, key.as_slice())
}

/// Relies on <MemoryStorage as cosmwasm_std::Storage>::set: puts the value
/// under the key, replacing any earlier one; it panics on an empty value.
#[verifier::external_body]
pub(crate) fn storage_set(s: &mut MemoryStorage, key: &Vec<u8>, value: &Vec<u8>)
    requires
        value@.len() > 0,
    ensures
        storage_entries(*final(s)) == storage_entries(*old(s)).insert(key@, value@),
{
    cosmwasm_std::Storage::set(s, key.as_slice(), value.as_slice())
}

/// Relies on <MemoryStorage as cosmwasm_std::Storage>::range in ascending
/// order: every entry whose key is at least `start` and below `end`, by
/// ascending key (byte vectors compare lexicographically).
#[verifier::external_body]
pub(crate) fn storage_range(s: &MemoryStorage, start: &Vec<u8>, end: &Vec<u8>) -> (r: Vec<(Vec<u8>, Vec<u8>)>)
    ensures
        forall|i: int| 0 <= i < r@.len() ==> {
            let k = #[trigger] r@[i].0@;
            &&& storage_entries(*s).contains_key(k)
            &&& r@[i].1@ == storage_entries(*s)[k]
            &&& !lex_lt(k, start@)
            &&& lex_lt(k, end@)
        },
        forall|i: int, j: int| 0 <= i < j < r@.len() ==> lex_lt(#[trigger] r@[i].0@, #[trigger] r@[j].0@),
        forall|k: Seq<u8>| #[trigger] storage_entries(*s).contains_key(k) && !lex_lt(k, start@) && lex_lt(k, end@)
            ==> record_keys(r@).contains(k),
{
    cosmwasm_std::Storage::range(s, Some(start.as_slice()), Some(end.as_slice()), cosmwasm_std::Order::Ascending)
        .collect()
}

} // verus!

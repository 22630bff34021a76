//! The ordered key-value store under the index: cosmwasm's `MemoryStorage`.

use cosmwasm_std::{MemoryStorage, Order, Storage};
use vstd::prelude::*;

use crate::due_key::lex_lt;

verus! {

#[verifier::external_type_specification]
#[verifier::external_body]
pub struct ExMemoryStorage(MemoryStorage);

/// What a `MemoryStorage` holds: each key with its value.
pub uninterp spec fn storage_contents(s: MemoryStorage) -> Map<Seq<u8>, Seq<u8>>;

/// Whether `k` lies from `start` (included) to `end` (excluded), an absent
/// bound leaving that side open.
pub open spec fn in_key_range(k: Seq<u8>, start: Option<Seq<u8>>, end: Option<Seq<u8>>) -> bool {
    &&& (start matches Some(s) ==> !lex_lt(k, s))
    &&& (end matches Some(e) ==> lex_lt(k, e))
}

/// The bytes of a bound, if there is one.
pub open spec fn bound_view(b: Option<&[u8]>) -> Option<Seq<u8>> {
    match b {
        Some(x) => Some(x@),
        None => None,
    }
}

/// Relies on `MemoryStorage::new`: a store that holds nothing.
#[verifier::external_body]
pub(crate) fn store_new() -> (r: MemoryStorage)
    ensures
        storage_contents(r).dom() == Set::<Seq<u8>>::empty(),
{
    MemoryStorage::new()
}

/// Relies on `Storage::get` of `MemoryStorage`: the value kept under `key`.
#[verifier::external_body]
pub(crate) fn store_get(s: &MemoryStorage, key: &[u8]) -> (r: Option<Vec<u8>>)
    ensures
        r is Some <==> storage_contents(*s).contains_key(key@),
        r matches Some(v) ==> v@ == storage_contents(*s)[key@],
{
    s.get(key)
}

/// Relies on `Storage::set` of `MemoryStorage`: keeps `value` under `key`. It
/// panics on an empty value.
#[verifier::external_body]
pub(crate) fn store_set(s: &mut MemoryStorage, key: &[u8], value: &[u8])
    requires
        value@.len() > 0,
    ensures
        storage_contents(*final(s)) == storage_contents(*old(s)).insert(key@, value@),
{
    s.set(key, value)
}

/// Relies on `Storage::remove` of `MemoryStorage`: drops `key` and its value.
#[verifier::external_body]
pub(crate) fn store_remove(s: &mut MemoryStorage, key: &[u8])
    ensures
        storage_contents(*final(s)) == storage_contents(*old(s)).remove(key@),
{
    s.remove(key)
}

/// Relies on `Storage::range` of `MemoryStorage` in ascending order: the keys
/// from `start` (included) to `end` (excluded), each once, in the order of
/// `Vec<u8>` (a `BTreeMap` range; empty when `start` lies past `end`).
#[verifier::external_body]
pub(crate) fn store_keys(
    s: &MemoryStorage,
    start: Option<&[u8]>,
    end: Option<&[u8]>,
) -> (r: Vec<Vec<u8>>)
    ensures
        forall|i: int, j: int| 0 <= i < j < r@.len() ==> lex_lt(r@[i]@, r@[j]@),
        forall|i: int|
            0 <= i < r@.len() ==> storage_contents(*s).contains_key(#[trigger] r@[i]@)
                && in_key_range(r@[i]@, bound_view(start), bound_view(end)),
        forall|k: Seq<u8>|
            storage_contents(*s).contains_key(k) && #[trigger] in_key_range(
                k,
                bound_view(start),
                bound_view(end),
            ) ==> exists|i: int| 0 <= i < r@.len() && r@[i]@ == k,
{
    s.range(start, end, Order::Ascending).map(|(k, _)| k).collect()
}

} // verus!

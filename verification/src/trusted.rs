//! Operations of outside code whose behaviour is stated here and not proved.

use crate::order::{key_lt, total_order};
use either::Either;
use std::collections::btree_map::{Iter, Range};
use std::collections::BTreeMap;
use vstd::prelude::*;
use vstd::std_specs::btree::spec_btree_map_iter;
use vstd::std_specs::iter::IteratorSpec;

verus! {

/// `either::Either`, a value that is of one of two types.
#[verifier::external_type_specification]
#[verifier::external_body]
#[verifier::reject_recursive_types(L)]
#[verifier::reject_recursive_types(R)]
pub struct ExEither<L, R>(Either<L, R>);

/// `std::collections::btree_map::Range`, an iterator over part of a map.
#[verifier::external_type_specification]
#[verifier::external_body]
#[verifier::reject_recursive_types(K)]
#[verifier::reject_recursive_types(V)]
pub struct ExRange<'a, K, V>(Range<'a, K, V>);

/// A position in a map: what is left of a walk from the first entry, or of a
/// walk from a given key.
pub type Cursor<'a, K, V> = Either<Iter<'a, K, V>, Range<'a, K, V>>;

/// Whether `i` is where the keys of `all` stop being less than `key`.
pub open spec fn lower_bound<K: Ord, V>(all: Seq<(&K, &V)>, key: K, i: int) -> bool {
    &&& 0 <= i <= all.len()
    &&& forall|j: int| 0 <= j < all.len() ==> (j < i <==> key_lt(*(#[trigger] all[j]).0, key))
}

/// Whether `rest` is what is left of `all` from the first key on that is not
/// less than `key`.
pub open spec fn tail_from<K: Ord, V>(all: Seq<(&K, &V)>, key: K, rest: Seq<(&K, &V)>) -> bool {
    exists|i: int| #[trigger] lower_bound(all, key, i) && rest == all.skip(i)
}

/// `Either::Left` around a walk over a whole map.
///
/// States that the cursor, taken as an iterator, keeps to the laws of
/// iterators if the walk does, and will yield what the walk would have
/// yielded: `Either`'s `next` hands the call on to the iterator it holds.
#[verifier::external_body]
pub(crate) fn from_start<'a, K, V>(iter: Iter<'a, K, V>) -> (c: Cursor<'a, K, V>)
    ensures
        c.obeys_prophetic_iter_laws() == iter.obeys_prophetic_iter_laws(),
        c.remaining() == iter.remaining(),
{
    Either::Left(iter)
}

/// `Either::Right` around a walk over part of a map.
///
/// States that the cursor, taken as an iterator, keeps to the laws of
/// iterators if the walk does, and will yield what the walk would have
/// yielded: `Either`'s `next` hands the call on to the iterator it holds.
#[verifier::external_body]
pub(crate) fn from_key<'a, K, V>(range: Range<'a, K, V>) -> (c: Cursor<'a, K, V>)
    ensures
        c.obeys_prophetic_iter_laws() == range.obeys_prophetic_iter_laws(),
        c.remaining() == range.remaining(),
{
    Either::Right(range)
}

/// `BTreeMap::range` with a lower bound only.
///
/// States that the walk keeps to the laws of iterators and yields the entries
/// of the map whose keys are not less than `key`, in the order in which a walk
/// over the whole map yields them.
#[verifier::external_body]
pub(crate) fn range_from<'a, K: Ord, V>(map: &'a BTreeMap<K, V>, key: K) -> (r: Range<'a, K, V>)
    ensures
        r.obeys_prophetic_iter_laws(),
        total_order::<K>() ==> tail_from(
            spec_btree_map_iter(map).remaining(),
            key,
            r.remaining(),
        ),
{
    map.range(key..)
}

/// `BTreeMap::get_mut`: mutable access to the value stored under `key`.
///
/// States that the reference points at the stored value, that whatever is
/// written through it becomes the stored value, and that nothing else in the
/// map changes. A missing key gives `None` and leaves the map as it was.
#[verifier::external_body]
pub(crate) fn value_mut<'a, K: Ord, V>(map: &'a mut BTreeMap<K, V>, key: &K) -> (r: Option<
    &'a mut V,
>)
    ensures
        total_order::<K>() ==> match r {
            Some(v) => old(map)@.contains_key(*key) && *v == old(map)@[*key]
                && final(map)@ == old(map)@.insert(*key, *final(v)),
            None => !old(map)@.contains_key(*key) && final(map)@ == old(map)@,
        },
{
    map.get_mut(key)
}

/// `BTreeMap::pop_first`: removes the entry with the least key and returns it.
///
/// States that the entry was in the map, that its key is less than every key
/// that stays, and that the map loses this entry and nothing else. An empty
/// map gives `None` and stays empty.
#[verifier::external_body]
pub(crate) fn take_first<K: Ord, V>(map: &mut BTreeMap<K, V>) -> (r: Option<(K, V)>)
    ensures
        total_order::<K>() ==> match r {
            Some(e) => old(map)@.contains_pair(e.0, e.1) && final(map)@ == old(map)@.remove(e.0)
                && forall|k: K| #[trigger] final(map)@.contains_key(k) ==> key_lt(e.0, k),
            None => old(map)@.dom() == Set::<K>::empty() && final(map)@ == old(map)@,
        },
{
    map.pop_first()
}

} // verus!

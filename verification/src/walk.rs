//! Walking over iterators and over the entries of a map.

use crate::order::{entries_of, key_lt, total_order};
use std::collections::BTreeMap;
use vstd::prelude::*;
use vstd::std_specs::btree::{increasing_seq, spec_btree_map_iter};
use vstd::std_specs::iter::IteratorSpec;

verus! {

/// Takes the next item of an iterator that keeps to the laws of iterators:
/// the first of the items it had left, or `None` if it had none left.
pub(crate) fn step<I: Iterator>(iter: &mut I) -> (r: Option<I::Item>)
    requires
        (*old(iter)).obeys_prophetic_iter_laws(),
    ensures
        (*final(iter)).obeys_prophetic_iter_laws(),
        (*old(iter)).remaining().len() > 0 ==> r == Some((*old(iter)).remaining()[0])
            && (*final(iter)).remaining() == (*old(iter)).remaining().drop_first(),
        (*old(iter)).remaining().len() == 0 ==> r is None
            && (*final(iter)).remaining() == (*old(iter)).remaining(),
{
    iter.next()
}

/// What a walk over a map yields is the ascending listing of its entries.
pub(crate) proof fn lemma_walk_lists_entries<K: Ord, V>(map: &BTreeMap<K, V>)
    requires
        total_order::<K>(),
        increasing_seq(spec_btree_map_iter(map).remaining().map_values(|kv: (&K, &V)| *kv.0)),
    ensures
        entries_of(spec_btree_map_iter(map).remaining().unref(), map@),
{
    let all = spec_btree_map_iter(map).remaining();
    let keys = all.map_values(|kv: (&K, &V)| *kv.0);
    let s = all.unref();
    assert forall|i: int, j: int| 0 <= i < j < s.len() implies key_lt(
        #[trigger] s[i].0,
        #[trigger] s[j].0,
    ) by {
        assert(keys[i] == s[i].0 && keys[j] == s[j].0);
    }
    assert forall|i: int| 0 <= i < s.len() implies map@.contains_pair(
        #[trigger] s[i].0,
        s[i].1,
    ) by {
        assert(map@.contains_key(*all[i].0));
    }
    assert forall|k: K| #[trigger] map@.contains_key(k) implies exists|i: int|
        0 <= i < s.len() && #[trigger] s[i].0 == k by {
        assert(all.contains((&k, &map@[k])));
        let i = choose|i: int| 0 <= i < all.len() && all[i] == (&k, &map@[k]);
        assert(s[i].0 == k);
    }
}

} // verus!

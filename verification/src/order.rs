//! Keys in ascending order, and the entries of a map listed in that order.

use vstd::laws_cmp::{obeys_cmp, obeys_cmp_ord, obeys_partial_cmp_spec_properties};
use vstd::prelude::*;
use vstd::std_specs::cmp::{OrdSpec, PartialOrdSpec};

verus! {

/// Whether keys of type `K` compare as a total order, with the outcomes that
/// `cmp_spec` gives.
pub open spec fn total_order<K: Ord>() -> bool {
    obeys_cmp::<K>()
}

/// Whether key `a` comes strictly before key `b`.
pub open spec fn key_lt<K: Ord>(a: K, b: K) -> bool {
    a.cmp_spec(&b) is Less
}

/// Whether a clone of a key is always the same key.
pub open spec fn faithful_clone<K: Clone>() -> bool {
    forall|a: K, b: K| #[trigger] cloned(a, b) ==> a == b
}

/// Whether the keys of `s` are strictly ascending.
pub open spec fn ascending<K: Ord, V>(s: Seq<(K, V)>) -> bool {
    forall|i: int, j: int| 0 <= i < j < s.len() ==> key_lt(#[trigger] s[i].0, #[trigger] s[j].0)
}

/// Whether `s` lists exactly the entries of `m`, in ascending key order.
pub open spec fn entries_of<K: Ord, V>(s: Seq<(K, V)>, m: Map<K, V>) -> bool {
    &&& ascending(s)
    &&& forall|i: int| 0 <= i < s.len() ==> m.contains_pair(#[trigger] s[i].0, s[i].1)
    &&& forall|k: K| #[trigger]
        m.contains_key(k) ==> exists|i: int| 0 <= i < s.len() && #[trigger] s[i].0 == k
}

/// No key comes before itself.
pub proof fn lemma_lt_irreflexive<K: Ord>(a: K)
    requires
        total_order::<K>(),
    ensures
        !key_lt(a, a),
{
    reveal(obeys_cmp_ord);
    reveal(obeys_partial_cmp_spec_properties);
    assert(a.partial_cmp_spec(&a) == Some(a.cmp_spec(&a)));
}

/// Coming before is transitive.
pub proof fn lemma_lt_transitive<K: Ord>(a: K, b: K, c: K)
    requires
        total_order::<K>(),
        key_lt(a, b),
        key_lt(b, c),
    ensures
        key_lt(a, c),
{
    reveal(obeys_cmp_ord);
    reveal(obeys_partial_cmp_spec_properties);
    assert(a.partial_cmp_spec(&b) == Some(a.cmp_spec(&b)));
    assert(b.partial_cmp_spec(&c) == Some(b.cmp_spec(&c)));
    assert(a.partial_cmp_spec(&c) == Some(a.cmp_spec(&c)));
}

/// If one key comes before another, the other does not come before it.
pub proof fn lemma_lt_asymmetric<K: Ord>(a: K, b: K)
    requires
        total_order::<K>(),
        key_lt(a, b),
    ensures
        !key_lt(b, a),
{
    if key_lt(b, a) {
        lemma_lt_transitive(a, b, a);
        lemma_lt_irreflexive(a);
    }
}

/// The keys of an ascending sequence are pairwise distinct.
pub proof fn lemma_ascending_distinct<K: Ord, V>(s: Seq<(K, V)>, i: int, j: int)
    requires
        total_order::<K>(),
        ascending(s),
        0 <= i < s.len(),
        0 <= j < s.len(),
        s[i].0 == s[j].0,
    ensures
        i == j,
{
    if i < j {
        lemma_lt_irreflexive(s[i].0);
    } else if j < i {
        lemma_lt_irreflexive(s[j].0);
    }
}

/// Two ascending listings of one map agree on their first `k` entries.
proof fn lemma_prefix_agrees<K: Ord, V>(a: Seq<(K, V)>, b: Seq<(K, V)>, m: Map<K, V>, k: int)
    requires
        total_order::<K>(),
        entries_of(a, m),
        entries_of(b, m),
        0 <= k <= a.len(),
    ensures
        k <= b.len(),
        forall|i: int| 0 <= i < k ==> a[i] == b[i],
    decreases k,
{
    if k > 0 {
        lemma_prefix_agrees(a, b, m, k - 1);
        let x = k - 1;
        assert(m.contains_pair(a[x].0, a[x].1));
        let j = choose|j: int| 0 <= j < b.len() && b[j].0 == a[x].0;
        if j < x {
            assert(a[j] == b[j]);
            lemma_ascending_distinct(a, j, x);
        }
        assert(m.contains_pair(b[x].0, b[x].1));
        let i = choose|i: int| 0 <= i < a.len() && a[i].0 == b[x].0;
        if i < x {
            assert(a[i] == b[i]);
            lemma_ascending_distinct(b, i, x);
        }
        if j > x {
            assert(key_lt(b[x].0, b[j].0));
            if i == x {
                lemma_lt_irreflexive(a[x].0);
            } else {
                assert(key_lt(a[x].0, a[i].0));
                lemma_lt_asymmetric(a[x].0, b[x].0);
            }
        }
        assert(a[x].0 == b[x].0);
        assert(a[x] == b[x]);
    }
}

/// A map has only one ascending listing of its entries.
pub proof fn lemma_entries_unique<K: Ord, V>(a: Seq<(K, V)>, b: Seq<(K, V)>, m: Map<K, V>)
    requires
        total_order::<K>(),
        entries_of(a, m),
        entries_of(b, m),
    ensures
        a == b,
{
    lemma_prefix_agrees(a, b, m, a.len() as int);
    lemma_prefix_agrees(b, a, m, b.len() as int);
    assert(a =~= b);
}

/// An ascending listing of a map names exactly the map's keys, each once.
pub proof fn lemma_entries_len<K: Ord, V>(s: Seq<(K, V)>, m: Map<K, V>)
    requires
        total_order::<K>(),
        entries_of(s, m),
    ensures
        m.dom().finite(),
        m.dom().len() == s.len(),
    decreases s.len(),
{
    if s.len() == 0 {
        assert(m.dom() =~= Set::empty());
    } else {
        let last = s.last();
        let rest = s.drop_last();
        let smaller = m.remove(last.0);
        assert forall|k: K| #[trigger] smaller.contains_key(k) implies exists|i: int|
            0 <= i < rest.len() && #[trigger] rest[i].0 == k by {
            assert(m.contains_key(k));
            let i = choose|i: int| 0 <= i < s.len() && s[i].0 == k;
            assert(i < rest.len());
            assert(rest[i] == s[i]);
        }
        assert forall|i: int| 0 <= i < rest.len() implies smaller.contains_pair(
            #[trigger] rest[i].0,
            rest[i].1,
        ) by {
            assert(rest[i] == s[i]);
            assert(m.contains_pair(s[i].0, s[i].1));
            if s[i].0 == last.0 {
                lemma_ascending_distinct(s, i, s.len() - 1);
            }
        }
        assert(ascending(rest)) by {
            assert forall|i: int, j: int| 0 <= i < j < rest.len() implies key_lt(
                #[trigger] rest[i].0,
                #[trigger] rest[j].0,
            ) by {
                assert(rest[i] == s[i] && rest[j] == s[j]);
            }
        }
        lemma_entries_len(rest, smaller);
        assert(m.contains_pair(last.0, last.1));
        assert(m.dom() =~= smaller.dom().insert(last.0));
    }
}

/// A map of fewer than two entries has an ascending listing.
pub proof fn lemma_short_listing<K: Ord, V>(m: Map<K, V>)
    requires
        m.dom().finite(),
        m.dom().len() < 2,
    ensures
        exists|s: Seq<(K, V)>| #[trigger] entries_of(s, m),
{
    if m.dom().len() == 0 {
        let s = Seq::<(K, V)>::empty();
        assert forall|k: K| !m.contains_key(k) by {
            if m.dom().contains(k) {
                assert(m.dom().remove(k).len() + 1 == m.dom().len());
            }
        }
        assert(entries_of(s, m));
    } else {
        let k = m.dom().choose();
        let s = seq![(k, m[k])];
        assert(m.dom().contains(k));
        assert(s[0] == (k, m[k]));
        assert forall|o: K| #[trigger] m.contains_key(o) implies exists|i: int|
            0 <= i < s.len() && #[trigger] s[i].0 == o by {
            if o != k {
                assert(m.dom().remove(k).contains(o));
                assert(m.dom().remove(k).remove(o).len() + 1 == m.dom().remove(k).len());
            }
            assert(s[0].0 == o);
        }
        assert(entries_of(s, m));
    }
}

} // verus!

//! Merging in one pass over the entries of a map that has been taken apart.

use crate::lemmas::{
    lemma_kept_keeps_unmarked, lemma_leader_bounds, lemma_marks_keep_survivors, lemma_rep_agrees,
    lemma_short_is_merged, lemma_short_keeps_unmarked, lemma_survivors_as_map,
    lemma_survivors_last, lemma_unmarked_keys_member,
};
use crate::model::{
    as_map, carried, holds_untouched, keeps_survivors, keeps_unmarked, keys_of, leader, marks,
    merged, rep_of, survives, survivors, survivors_prefix, unmarked_keys, Fold, Matches,
};
use crate::order::{
    ascending, entries_of, key_lt, lemma_ascending_distinct, lemma_entries_len,
    lemma_entries_unique, lemma_short_listing, total_order,
};
use crate::trusted::take_first;
use crate::walk::step;
use std::collections::BTreeMap;
use vstd::prelude::*;
use vstd::std_specs::iter::IteratorSpec;

verus! {

/// Whether `predicate`, whenever it returns, returns what `p` says.
pub open spec fn judges<K, V, P: FnMut(&(K, V), &(K, V)) -> bool>(
    predicate: P,
    p: Matches<K, V>,
) -> bool {
    forall|a: &(K, V), b: &(K, V), r: bool| #[trigger]
        call_ensures(predicate, (a, b), r) ==> r == p(*a, *b)
}

/// Whether `joins` holds what `predicate` could have answered in a pass over
/// `s`: the first entry is unmarked, and each later entry is marked with a
/// value that `predicate` can return for the last unmarked entry before it
/// and the entry itself.
pub open spec fn answered<K, V, P: FnMut(&(K, V), &(K, V)) -> bool>(
    predicate: P,
    s: Seq<(K, V)>,
    joins: Seq<bool>,
) -> bool {
    &&& joins.len() == s.len()
    &&& s.len() > 0 ==> !joins[0]
    &&& forall|i: int|
        0 < i < s.len() ==> call_ensures(
            predicate,
            (&s[rep_of(joins, i - 1)], &s[i]),
            #[trigger] joins[i],
        )
}

/// Answers of a predicate that returns what `p` says are the marks of `p`.
pub proof fn lemma_answered_marks<K, V, P: FnMut(&(K, V), &(K, V)) -> bool>(
    predicate: P,
    s: Seq<(K, V)>,
    joins: Seq<bool>,
    p: Matches<K, V>,
)
    requires
        answered(predicate, s, joins),
        judges(predicate, p),
    ensures
        marks(joins, s, p),
{
    assert forall|i: int| 0 <= i < s.len() implies #[trigger] joins[i] == !survives(s, p, i) by {
        lemma_answered_prefix(predicate, s, joins, p, i);
    }
}

/// Up to entry `i`, the answers of a predicate that returns what `p` says
/// mark the entries that `p` does not let start a run.
proof fn lemma_answered_prefix<K, V, P: FnMut(&(K, V), &(K, V)) -> bool>(
    predicate: P,
    s: Seq<(K, V)>,
    joins: Seq<bool>,
    p: Matches<K, V>,
    i: int,
)
    requires
        answered(predicate, s, joins),
        judges(predicate, p),
        0 <= i < s.len(),
    ensures
        joins[i] == !survives(s, p, i),
        rep_of(joins, i) == leader(s, p, i),
    decreases i,
{
    if i > 0 {
        lemma_answered_prefix(predicate, s, joins, p, i - 1);
        lemma_leader_bounds(s, p, i - 1);
        let r = rep_of(joins, i - 1);
        assert(call_ensures(predicate, (&s[r], &s[i]), joins[i]));
        assert(joins[i] == p(s[r], s[i]));
    }
}

/// A predicate that cannot return `true` for an entry and the entry before it
/// marks no entry.
pub proof fn law_no_match_no_mark<K, V, P: FnMut(&(K, V), &(K, V)) -> bool>(
    predicate: P,
    s: Seq<(K, V)>,
    joins: Seq<bool>,
    i: int,
)
    requires
        answered(predicate, s, joins),
        forall|x: int, r: bool|
            0 < x < s.len() && #[trigger] call_ensures(predicate, (&s[x - 1], &s[x]), r) ==> !r,
        0 <= i < s.len(),
    ensures
        !joins[i],
        rep_of(joins, i) == i,
    decreases i,
{
    if i > 0 {
        law_no_match_no_mark(predicate, s, joins, i - 1);
        assert(call_ensures(predicate, (&s[i - 1], &s[i]), joins[i]));
    }
}

/// Empties `map` and returns its entries in ascending key order.
fn into_entries<K: Ord, V>(map: &mut BTreeMap<K, V>) -> (entries: Vec<(K, V)>)
    requires
        total_order::<K>(),
    ensures
        entries_of(entries@, old(map)@),
        final(map)@ == Map::<K, V>::empty(),
{
    let mut entries: Vec<(K, V)> = Vec::new();
    let ghost whole = map@;
    loop
        invariant
            total_order::<K>(),
            whole == old(map)@,
            map@.dom().finite(),
            ascending(entries@),
            forall|i: int|
                0 <= i < entries@.len() ==> whole.contains_pair(
                    (#[trigger] entries@[i]).0,
                    entries@[i].1,
                ),
            forall|i: int, k: K|
                0 <= i < entries@.len() && #[trigger] map@.contains_key(k) ==> key_lt(
                    (#[trigger] entries@[i]).0,
                    k,
                ),
            forall|k: K| #[trigger]
                whole.contains_key(k) ==> map@.contains_key(k) || exists|i: int|
                    0 <= i < entries@.len() && #[trigger] entries@[i].0 == k,
            forall|k: K| #[trigger] map@.contains_key(k) ==> whole.contains_pair(k, map@[k]),
        ensures
            map@ == Map::<K, V>::empty(),
            entries_of(entries@, whole),
        decreases map@.dom().len(),
    {
        let ghost before = map@;
        let ghost listed = entries@;
        match take_first(map) {
            Some(e) => {
                entries.push(e);
                proof {
                    let last = listed.len() as int;
                    assert(entries@[last] == e);
                    assert forall|i: int, j: int| 0 <= i < j < entries@.len() implies key_lt(
                        #[trigger] entries@[i].0,
                        #[trigger] entries@[j].0,
                    ) by {
                        assert(entries@[i] == listed[i]);
                        if j < last {
                            assert(entries@[j] == listed[j]);
                        } else {
                            assert(before.contains_key(e.0));
                        }
                    }
                    assert forall|i: int, k: K|
                        0 <= i < entries@.len() && #[trigger] map@.contains_key(k) implies key_lt(
                        (#[trigger] entries@[i]).0,
                        k,
                    ) by {
                        if i < last {
                            assert(entries@[i] == listed[i]);
                            assert(before.contains_key(k));
                        }
                    }
                    assert forall|k: K| #[trigger] whole.contains_key(k) implies map@.contains_key(
                        k,
                    ) || exists|i: int|
                        0 <= i < entries@.len() && #[trigger] entries@[i].0 == k by {
                        if before.contains_key(k) {
                            if k == e.0 {
                                assert(entries@[last].0 == k);
                            }
                        } else {
                            let i = choose|i: int|
                                0 <= i < listed.len() && #[trigger] listed[i].0 == k;
                            assert(entries@[i] == listed[i]);
                        }
                    }
                    assert forall|i: int| 0 <= i < entries@.len() implies whole.contains_pair(
                        (#[trigger] entries@[i]).0,
                        entries@[i].1,
                    ) by {
                        if i < last {
                            assert(entries@[i] == listed[i]);
                        }
                    }
                }
            },
            None => {
                assert(map@ =~= Map::<K, V>::empty());
                break ;
            },
        }
    }
    entries
}

/// Marks each entry that is to be folded into the representative of its run.
///
/// The first entry is the first representative. Each later entry is compared
/// with the current representative: if `predicate` holds of the pair, the
/// entry is marked; if not, the entry becomes the representative.
fn mark_runs<K, V, P>(entries: &Vec<(K, V)>, mut predicate: P) -> (joins: Vec<bool>) where
    P: FnMut(&(K, V), &(K, V)) -> bool,

    requires
        forall|a: &(K, V), b: &(K, V), i: int, j: int|
            0 <= i < j < entries@.len() && *a == #[trigger] entries@[i] && *b
                == #[trigger] entries@[j] ==> #[trigger] call_requires(predicate, (a, b)),
    ensures
        answered(predicate, entries@, joins@),
{
    let mut joins: Vec<bool> = Vec::new();
    if entries.len() == 0 {
        return joins;
    }
    joins.push(false);
    let ghost given = predicate;
    let mut rep: usize = 0;
    let mut i: usize = 1;
    while i < entries.len()
        invariant
            predicate == given,
            forall|a: &(K, V), b: &(K, V), i: int, j: int|
                0 <= i < j < entries@.len() && *a == #[trigger] entries@[i] && *b
                    == #[trigger] entries@[j] ==> #[trigger] call_requires(predicate, (a, b)),
            0 <= rep < i <= entries@.len(),
            joins@.len() == i,
            !joins@[0],
            rep == rep_of(joins@, i - 1),
            forall|x: int|
                0 < x < i ==> call_ensures(
                    predicate,
                    (&entries@[rep_of(joins@, x - 1)], &entries@[x]),
                    #[trigger] joins@[x],
                ),
        decreases entries@.len() - i,
    {
        let ghost joins0 = joins@;
        let r = predicate(&entries[rep], &entries[i]);
        joins.push(r);
        proof {
            lemma_rep_agrees(joins@, joins0, i - 1);
            assert forall|x: int| 0 < x < i + 1 implies call_ensures(
                predicate,
                (&entries@[rep_of(joins@, x - 1)], &entries@[x]),
                #[trigger] joins@[x],
            ) by {
                lemma_rep_agrees(joins@, joins0, x - 1);
                if x < i {
                    assert(joins@[x] == joins0[x]);
                }
            }
        }
        if !r {
            rep = i;
        }
        i += 1;
    }
    joins
}

/// Folds each marked entry into the last entry kept before it, and keeps the
/// others, in order.
fn fold_runs<K: Ord, V, M>(entries: Vec<(K, V)>, joins: &Vec<bool>, mut absorb: M) -> (kept: Vec<
    (K, V),
>) where M: FnMut((&K, &mut V), (&K, &mut V))
    requires
        total_order::<K>(),
        ascending(entries@),
        joins@.len() == entries@.len(),
        entries@.len() > 0 ==> !joins@[0],
        forall|d: (&K, &mut V), e: (&K, &mut V), i: int, j: int|
            0 <= i < j < entries@.len() && *d.0 == (#[trigger] entries@[i]).0 && (*e.0, *e.1)
                == #[trigger] entries@[j] ==> #[trigger] call_requires(absorb, (d, e)),
    ensures
        keys_of(kept@) == unmarked_keys(entries@, joins@, entries@.len() as int),
        holds_untouched(kept@, entries@, joins@, entries@.len() as int),
        forall|p: Matches<K, V>, f: Fold<K, V>|
            marks(joins@, entries@, p) && (forall|d: (&K, &mut V), e: (&K, &mut V)| #[trigger]
                call_ensures(absorb, (d, e), ()) ==> *final(d.1) == f((*d.0, *d.1), (*e.0, *e.1)))
                ==> kept@ == #[trigger] survivors(entries@, p, f),
{
    let ghost s = entries@;
    let ghost given = absorb;
    let mut kept: Vec<(K, V)> = Vec::new();
    let mut iter = entries.into_iter();
    let mut i: usize = 0;
    let ghost mut rep: int = 0;
    loop
        invariant
            absorb == given,
            total_order::<K>(),
            ascending(s),
            joins@.len() == s.len(),
            s.len() > 0 ==> !joins@[0],
            forall|d: (&K, &mut V), e: (&K, &mut V), i: int, j: int|
                0 <= i < j < s.len() && *d.0 == (#[trigger] s[i]).0 && (*e.0, *e.1)
                    == #[trigger] s[j] ==> #[trigger] call_requires(absorb, (d, e)),
            0 <= i <= s.len(),
            iter.obeys_prophetic_iter_laws(),
            iter.remaining() == s.skip(i as int),
            i == 0 ==> kept@.len() == 0,
            i > 0 ==> kept@.len() > 0 && 0 <= rep < i && kept@.last().0 == s[rep].0 && !joins@[rep],
            forall|x: int| rep < x < i ==> #[trigger] joins@[x],
            keys_of(kept@) == unmarked_keys(s, joins@, i as int),
            holds_untouched(kept@, s, joins@, i as int),
            forall|p: Matches<K, V>, f: Fold<K, V>|
                marks(joins@, s, p) && (forall|d: (&K, &mut V), e: (&K, &mut V)| #[trigger]
                    call_ensures(absorb, (d, e), ()) ==> *final(d.1) == f(
                        (*d.0, *d.1),
                        (*e.0, *e.1),
                    )) ==> kept@ == #[trigger] survivors_prefix(s, p, f, i as int),
        ensures
            i == s.len(),
        decreases s.len() - i,
    {
        let ghost kept0 = kept@;
        match step(&mut iter) {
            Some(mut next) => {
                assert(i < s.len());
                assert(next == s[i as int]);
                if joins[i] {
                    let at = kept.len() - 1;
                    let last = &mut kept[at];
                    absorb((&last.0, &mut last.1), (&next.0, &mut next.1));
                    proof {
                        assert(kept@.len() == kept0.len());
                        assert(kept@[at as int].0 == kept0[at as int].0);
                        assert forall|x: int| 0 <= x < at implies kept@[x] == kept0[x] by {}
                        assert(keys_of(kept@) =~= keys_of(kept0));
                        assert forall|x: int|
                            0 <= x < i + 1 && !(#[trigger] joins@[x]) && (x + 1 >= i + 1
                                || !joins@[x + 1]) implies kept@.contains(s[x]) by {
                            assert(x + 1 < i);
                            assert(kept0.contains(s[x]));
                            let y = choose|y: int| 0 <= y < kept0.len() && kept0[y] == s[x];
                            if y == at {
                                lemma_ascending_distinct(s, x, rep);
                            }
                            assert(kept@[y] == s[x]);
                        }
                        assert forall|p: Matches<K, V>, f: Fold<K, V>|
                            marks(joins@, s, p) && (forall|d: (&K, &mut V), e: (&K, &mut V)|
                                #[trigger] call_ensures(absorb, (d, e), ()) ==> *final(d.1) == f(
                                    (*d.0, *d.1),
                                    (*e.0, *e.1),
                                )) implies kept@ == #[trigger] survivors_prefix(s, p, f, i + 1) by {
                            let l = leader(s, p, i - 1);
                            assert(kept0 == survivors_prefix(s, p, f, i as int));
                            lemma_survivors_last(s, p, f, i as int);
                            assert(kept0.last() == (s[l].0, carried(s, p, f, i - 1)));
                            assert(joins@[i as int] == !survives(s, p, i as int));
                            assert(leader(s, p, i as int) == l);
                            lemma_leader_bounds(s, p, i - 1);
                            assert(carried(s, p, f, i as int) == f(
                                (s[l].0, carried(s, p, f, i - 1)),
                                s[i as int],
                            ));
                            assert(kept@[at as int] == (s[l].0, carried(s, p, f, i as int)));
                            assert(kept@ =~= survivors_prefix(s, p, f, i + 1));
                        }
                    }
                } else {
                    kept.push(next);
                    proof {
                        assert(keys_of(kept@) =~= keys_of(kept0).push(s[i as int].0));
                        assert forall|x: int|
                            0 <= x < i + 1 && !(#[trigger] joins@[x]) && (x + 1 >= i + 1
                                || !joins@[x + 1]) implies kept@.contains(s[x]) by {
                            if x == i {
                                assert(kept@[kept0.len() as int] == s[x]);
                            } else {
                                assert(kept0.contains(s[x]));
                                let y = choose|y: int| 0 <= y < kept0.len() && kept0[y] == s[x];
                                assert(kept@[y] == s[x]);
                            }
                        }
                        assert forall|p: Matches<K, V>, f: Fold<K, V>|
                            marks(joins@, s, p) && (forall|d: (&K, &mut V), e: (&K, &mut V)|
                                #[trigger] call_ensures(absorb, (d, e), ()) ==> *final(d.1) == f(
                                    (*d.0, *d.1),
                                    (*e.0, *e.1),
                                )) implies kept@ == #[trigger] survivors_prefix(s, p, f, i + 1) by {
                            assert(kept0 == survivors_prefix(s, p, f, i as int));
                            assert(joins@[i as int] == !survives(s, p, i as int));
                        }
                        rep = i as int;
                    }
                }
                assert(i < joins.len());
                i += 1;
            },
            None => {
                break ;
            },
        }
    }
    kept
}

/// Puts the entries of `kept` into the empty `map`.
fn refill<K: Ord, V>(map: &mut BTreeMap<K, V>, kept: Vec<(K, V)>)
    requires
        total_order::<K>(),
        old(map)@ == Map::<K, V>::empty(),
    ensures
        final(map)@ == as_map(kept@, kept@.len() as int),
{
    let ghost s = kept@;
    let mut iter = kept.into_iter();
    let ghost mut i: int = 0;
    loop
        invariant
            total_order::<K>(),
            0 <= i <= s.len(),
            iter.obeys_prophetic_iter_laws(),
            iter.remaining() == s.skip(i),
            map@ == as_map(s, i),
        ensures
            i == s.len(),
            map@ == as_map(s, i),
        decreases s.len() - i,
    {
        match step(&mut iter) {
            Some(e) => {
                assert(e == s[i]);
                map.insert(e.0, e.1);
                proof {
                    i = i + 1;
                }
            },
            None => {
                break ;
            },
        }
    }
}

/// Merges runs of entries of `map`: takes the entries out of the map, folds
/// each run into its representative in one pass over the entries in ascending
/// key order, and rebuilds the map from the entries that are left.
///
/// Each entry is compared with the current representative, starting with the
/// first entry: where `predicate` holds, `absorb` folds the entry into the
/// representative and the entry is dropped; where it does not, the entry
/// becomes the representative. `predicate` sees the representative as it was
/// given, before anything was folded into it. A map of fewer than two entries
/// is left as it is.
///
/// `predicate` must accept any two entries of `map` of which the first has
/// the lesser key, and `absorb` must accept the key of an entry of `map` with
/// any value, together with any entry of `map` with a greater key. No key is
/// added. The map keeps the entries that the answers of `predicate` leave
/// unmarked, those that no marked entry follows with the values they had.
/// Where `predicate` and `absorb` compute functions of what they are given,
/// the map is the merge that the model defines for these functions.
pub fn merge_consecutive<K, V, P, M>(map: &mut BTreeMap<K, V>, predicate: P, absorb: M) where
    K: Ord,
    P: FnMut(&(K, V), &(K, V)) -> bool,
    M: FnMut((&K, &mut V), (&K, &mut V)),

    requires
        total_order::<K>(),
        forall|a: &(K, V), b: &(K, V)|
            old(map)@.contains_pair(a.0, a.1) && old(map)@.contains_pair(b.0, b.1) && key_lt(
                a.0,
                b.0,
            ) ==> #[trigger] call_requires(predicate, (a, b)),
        forall|d: (&K, &mut V), e: (&K, &mut V)|
            old(map)@.contains_key(*d.0) && old(map)@.contains_pair(*e.0, *e.1) && key_lt(
                *d.0,
                *e.0,
            ) ==> #[trigger] call_requires(absorb, (d, e)),
    ensures
        final(map)@.dom().subset_of(old(map)@.dom()),
        exists|s: Seq<(K, V)>| #[trigger] entries_of(s, old(map)@),
        forall|s: Seq<(K, V)>| #[trigger]
            entries_of(s, old(map)@) ==> exists|joins: Seq<bool>| #[trigger]
                answered(predicate, s, joins) && keeps_unmarked(final(map)@, s, joins),
        forall|s: Seq<(K, V)>, p: Matches<K, V>|
            entries_of(s, old(map)@) && judges(predicate, p) ==> #[trigger] keeps_survivors(
                final(map)@,
                s,
                p,
            ),
        forall|s: Seq<(K, V)>, p: Matches<K, V>, f: Fold<K, V>|
            entries_of(s, old(map)@) && judges(predicate, p) && (forall|
                d: (&K, &mut V),
                e: (&K, &mut V),
            | #[trigger]
                call_ensures(absorb, (d, e), ()) ==> *final(d.1) == f((*d.0, *d.1), (*e.0, *e.1)))
                ==> final(map)@ == #[trigger] merged(s, p, f),
{
    if map.len() < 2 {
        proof {
            lemma_short_listing(map@);
            assert forall|s: Seq<(K, V)>| #[trigger] entries_of(s, map@) implies exists|
                joins: Seq<bool>,
            | #[trigger] answered(predicate, s, joins) && keeps_unmarked(map@, s, joins) by {
                lemma_entries_len(s, map@);
                lemma_short_keeps_unmarked(map@, s);
                let joins = Seq::new(s.len(), |i: int| false);
                assert(answered(predicate, s, joins));
            }
            assert forall|s: Seq<(K, V)>, p: Matches<K, V>|
                entries_of(s, map@) implies #[trigger] keeps_survivors(map@, s, p) by {
                lemma_entries_len(s, map@);
                lemma_short_is_merged(map@, s, p);
            }
            assert forall|s: Seq<(K, V)>, p: Matches<K, V>, f: Fold<K, V>|
                entries_of(s, map@) implies map@ == #[trigger] merged(s, p, f) by {
                lemma_entries_len(s, map@);
                lemma_short_is_merged(map@, s, p);
            }
        }
        return ;
    }
    let entries = into_entries(map);
    let ghost listed = entries@;
    proof {
        assert forall|d: (&K, &mut V), e: (&K, &mut V), i: int, j: int|
            0 <= i < j < listed.len() && *d.0 == (#[trigger] listed[i]).0 && (*e.0, *e.1)
                == #[trigger] listed[j] implies #[trigger] call_requires(absorb, (d, e)) by {
            assert(old(map)@.contains_pair(listed[i].0, listed[i].1));
            assert(old(map)@.contains_pair(listed[j].0, listed[j].1));
            assert(key_lt(listed[i].0, listed[j].0));
        }
    }
    let joins = mark_runs(&entries, predicate);
    let kept = fold_runs(entries, &joins, absorb);
    let ghost kept_seq = kept@;
    refill(map, kept);
    proof {
        let n = listed.len() as int;
        lemma_kept_keeps_unmarked(kept_seq, listed, joins@);
        assert forall|k: K| map@.contains_key(k) implies #[trigger] old(map)@.contains_key(k) by {
            lemma_unmarked_keys_member(listed, joins@, n, k);
            let i = choose|i: int| 0 <= i < n && !joins@[i] && #[trigger] listed[i].0 == k;
            assert(old(map)@.contains_pair(listed[i].0, listed[i].1));
        }
        assert forall|s: Seq<(K, V)>| #[trigger] entries_of(s, old(map)@) implies exists|
            joins: Seq<bool>,
        | #[trigger] answered(predicate, s, joins) && keeps_unmarked(map@, s, joins) by {
            lemma_entries_unique(s, listed, old(map)@);
            assert(answered(predicate, s, joins@) && keeps_unmarked(map@, s, joins@));
        }
        assert forall|s: Seq<(K, V)>, p: Matches<K, V>|
            entries_of(s, old(map)@) && judges(predicate, p) implies #[trigger] keeps_survivors(
            map@,
            s,
            p,
        ) by {
            lemma_entries_unique(s, listed, old(map)@);
            lemma_answered_marks(predicate, listed, joins@, p);
            lemma_marks_keep_survivors(map@, joins@, listed, p);
        }
        assert forall|s: Seq<(K, V)>, p: Matches<K, V>, f: Fold<K, V>|
            entries_of(s, old(map)@) && judges(predicate, p) && (forall|
                d: (&K, &mut V),
                e: (&K, &mut V),
            | #[trigger]
                call_ensures(absorb, (d, e), ()) ==> *final(d.1) == f(
                    (*d.0, *d.1),
                    (*e.0, *e.1),
                )) implies map@ == #[trigger] merged(s, p, f) by {
            lemma_entries_unique(s, listed, old(map)@);
            lemma_answered_marks(predicate, listed, joins@, p);
            assert(kept_seq == survivors(listed, p, f));
            lemma_survivors_as_map(listed, p, f, n);
        }
    }
}

} // verus!

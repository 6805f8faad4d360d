//! Merging in two phases: a scan that plans, and an application of the plan.

use crate::lemmas::{
    lemma_applied_plan_is_merged, lemma_leader_bounds, lemma_marks_keep_survivors,
    lemma_marks_plan, lemma_plan_by_agrees, lemma_plan_by_fits, lemma_plan_keeps_unmarked,
    lemma_rep_agrees,
};
use crate::model::{
    applied, keeps_survivors, keeps_unmarked, leader, marks, merged, names_destination, plan_by,
    plan_fits, plan_of, rep_of, sources, survives, Fold, Matches,
};
use crate::order::{
    entries_of, faithful_clone, key_lt, lemma_entries_unique, lemma_lt_irreflexive, total_order,
};
use crate::trusted::{from_key, from_start, lower_bound, range_from, value_mut};
use crate::walk::{lemma_walk_lists_entries, step};
use std::collections::BTreeMap;
use vstd::prelude::*;
use vstd::std_specs::btree::spec_btree_map_iter;
use vstd::std_specs::iter::IteratorSpec;

verus! {

/// Whether `predicate`, whenever it returns, returns what `p` says.
pub open spec fn decides<K, V, P: FnMut((&K, &V), (&K, &V)) -> bool>(
    predicate: P,
    p: Matches<K, V>,
) -> bool {
    forall|a: (&K, &V), b: (&K, &V), r: bool| #[trigger]
        call_ensures(predicate, (a, b), r) ==> r == p((*a.0, *a.1), (*b.0, *b.1))
}

/// Whether `joins` holds what `predicate` could have replied in a scan of
/// `s`: the first entry is unmarked, and each later entry is marked with a
/// value that `predicate` can return for the last unmarked entry before it
/// and the entry itself.
pub open spec fn replied<K, V, P: FnMut((&K, &V), (&K, &V)) -> bool>(
    predicate: P,
    s: Seq<(K, V)>,
    joins: Seq<bool>,
) -> bool {
    &&& joins.len() == s.len()
    &&& s.len() > 0 ==> !joins[0]
    &&& forall|i: int|
        0 < i < s.len() ==> call_ensures(
            predicate,
            ((&s[rep_of(joins, i - 1)].0, &s[rep_of(joins, i - 1)].1), (&s[i].0, &s[i].1)),
            #[trigger] joins[i],
        )
}

/// Replies of a predicate that returns what `p` says are the marks of `p`.
pub proof fn lemma_replied_marks<K, V, P: FnMut((&K, &V), (&K, &V)) -> bool>(
    predicate: P,
    s: Seq<(K, V)>,
    joins: Seq<bool>,
    p: Matches<K, V>,
)
    requires
        replied(predicate, s, joins),
        decides(predicate, p),
    ensures
        marks(joins, s, p),
{
    assert forall|i: int| 0 <= i < s.len() implies #[trigger] joins[i] == !survives(s, p, i) by {
        lemma_replied_prefix(predicate, s, joins, p, i);
    }
}

/// Up to entry `i`, the replies of a predicate that returns what `p` says
/// mark the entries that `p` does not let start a run.
proof fn lemma_replied_prefix<K, V, P: FnMut((&K, &V), (&K, &V)) -> bool>(
    predicate: P,
    s: Seq<(K, V)>,
    joins: Seq<bool>,
    p: Matches<K, V>,
    i: int,
)
    requires
        replied(predicate, s, joins),
        decides(predicate, p),
        0 <= i < s.len(),
    ensures
        joins[i] == !survives(s, p, i),
        rep_of(joins, i) == leader(s, p, i),
    decreases i,
{
    if i > 0 {
        lemma_replied_prefix(predicate, s, joins, p, i - 1);
        lemma_leader_bounds(s, p, i - 1);
        let r = rep_of(joins, i - 1);
        assert(call_ensures(predicate, ((&s[r].0, &s[r].1), (&s[i].0, &s[i].1)), joins[i]));
        assert(joins[i] == p(s[r], s[i]));
    }
}

/// A predicate that cannot return `true` for an entry and the entry before it
/// marks no entry.
pub proof fn law_no_match_no_mark<K, V, P: FnMut((&K, &V), (&K, &V)) -> bool>(
    predicate: P,
    s: Seq<(K, V)>,
    joins: Seq<bool>,
    i: int,
)
    requires
        replied(predicate, s, joins),
        forall|x: int, r: bool|
            0 < x < s.len() && #[trigger] call_ensures(
                predicate,
                ((&s[x - 1].0, &s[x - 1].1), (&s[x].0, &s[x].1)),
                r,
            ) ==> !r,
        0 <= i < s.len(),
    ensures
        !joins[i],
        rep_of(joins, i) == i,
    decreases i,
{
    if i > 0 {
        law_no_match_no_mark(predicate, s, joins, i - 1);
        assert(call_ensures(
            predicate,
            ((&s[i - 1].0, &s[i - 1].1), (&s[i].0, &s[i].1)),
            joins[i],
        ));
    }
}

/// Scans `map` in ascending key order and lists the merges to make, without
/// changing anything.
///
/// The first entry is the first representative. Each later entry is compared
/// with the current representative: if `predicate` holds of the pair, the
/// entry is to be merged into the representative; if not, the entry becomes
/// the representative. The result lists an instruction, as (destination key,
/// source key), for each entry to be merged, in ascending order of the
/// source.
///
/// `predicate` must accept any two entries of `map` of which the first has
/// the lesser key. Whatever it answers, the instructions can be carried out
/// on `map` and each names a destination that comes before its source; they
/// are the instructions that the answers call for; and where `predicate`
/// computes a function of the two entries, they are the plan of that function.
pub fn plan_merges<K, V, P>(map: &BTreeMap<K, V>, mut predicate: P) -> (plan: Vec<(K, K)>) where
    K: Clone + Ord,
    P: FnMut((&K, &V), (&K, &V)) -> bool,

    requires
        total_order::<K>(),
        faithful_clone::<K>(),
        forall|a: (&K, &V), b: (&K, &V)|
            map@.contains_pair(*a.0, *a.1) && map@.contains_pair(*b.0, *b.1) && key_lt(*a.0, *b.0)
                ==> #[trigger] call_requires(predicate, (a, b)),
    ensures
        plan_fits(plan@, map@.dom()),
        forall|t: int| 0 <= t < plan@.len() ==> key_lt((#[trigger] plan@[t]).0, plan@[t].1),
        exists|s: Seq<(K, V)>| #[trigger] entries_of(s, map@),
        forall|s: Seq<(K, V)>| #[trigger]
            entries_of(s, map@) ==> exists|joins: Seq<bool>| #[trigger]
                replied(predicate, s, joins) && plan@ == plan_by(s, joins, s.len() as int),
        forall|s: Seq<(K, V)>, p: Matches<K, V>|
            entries_of(s, map@) && decides(predicate, p) ==> plan@ == #[trigger] plan_of(s, p),
{
    let mut plan: Vec<(K, K)> = Vec::new();
    let mut current = from_start(map.iter());
    let mut next = from_start(map.iter());
    let ghost given = predicate;
    let ghost all = spec_btree_map_iter(map).remaining();
    let ghost s = all.unref();
    let ghost n = map@.dom().len() as int;
    proof {
        lemma_walk_lists_entries(map);
    }
    let mut cur = step(&mut current);
    let skipped = step(&mut next);
    let ghost mut c: int = 0;
    let ghost mut j: int = if skipped is Some { 1 } else { 0 };
    let ghost mut joins: Seq<bool> = if skipped is Some { seq![false] } else { Seq::empty() };
    loop
        invariant
            predicate == given,
            total_order::<K>(),
            faithful_clone::<K>(),
            forall|a: (&K, &V), b: (&K, &V)|
                map@.contains_pair(*a.0, *a.1) && map@.contains_pair(*b.0, *b.1) && key_lt(
                    *a.0,
                    *b.0,
                ) ==> #[trigger] call_requires(predicate, (a, b)),
            all == spec_btree_map_iter(map).remaining(),
            s == all.unref(),
            n == all.len(),
            entries_of(s, map@),
            0 <= j <= n,
            next.obeys_prophetic_iter_laws(),
            next.remaining() == all.skip(j),
            n == 0 ==> cur is None && j == 0,
            n > 0 ==> 0 <= c < j && cur == Some(all[c]),
            joins.len() == j,
            j > 0 ==> !joins[0] && c == rep_of(joins, j - 1),
            forall|x: int|
                0 < x < j ==> call_ensures(
                    predicate,
                    ((&s[rep_of(joins, x - 1)].0, &s[rep_of(joins, x - 1)].1), (&s[x].0, &s[x].1)),
                    #[trigger] joins[x],
                ),
            plan@ == plan_by(s, joins, j),
        ensures
            j == n,
        decreases n - j,
    {
        let nxt = step(&mut next);
        match (cur, nxt) {
            (Some(rep), Some(cand)) => {
                assert(cand == all[j]);
                assert(rep == all[c]);
                assert(s[j] == (*cand.0, *cand.1));
                assert(s[c] == (*rep.0, *rep.1));
                assert(map@.contains_pair(s[c].0, s[c].1));
                assert(map@.contains_pair(s[j].0, s[j].1));
                assert(key_lt(s[c].0, s[j].0));
                let ghost joins0 = joins;
                let r = predicate(rep, cand);
                proof {
                    joins = joins.push(r);
                    lemma_rep_agrees(joins, joins0, j - 1);
                    lemma_plan_by_agrees(s, joins, joins0, j);
                    assert forall|x: int| 0 < x < j + 1 implies call_ensures(
                        predicate,
                        (
                            (&s[rep_of(joins, x - 1)].0, &s[rep_of(joins, x - 1)].1),
                            (&s[x].0, &s[x].1),
                        ),
                        #[trigger] joins[x],
                    ) by {
                        lemma_rep_agrees(joins, joins0, x - 1);
                        if x < j {
                            assert(joins[x] == joins0[x]);
                        }
                    }
                }
                if r {
                    let dest = rep.0.clone();
                    let src = cand.0.clone();
                    assert(cloned(*rep.0, dest) && cloned(*cand.0, src));
                    plan.push((dest, src));
                } else {
                    let key = cand.0.clone();
                    assert(cloned(*cand.0, key));
                    current = from_key(range_from(map, key));
                    proof {
                        let rest = current.remaining();
                        let i = choose|i: int| #[trigger]
                            lower_bound(all, s[j].0, i) && rest == all.skip(i);
                        lemma_lt_irreflexive(s[j].0);
                        assert(j >= i);
                        if j > i {
                            assert(key_lt(*all[j - 1].0, s[j].0)) by {
                                assert(key_lt(s[j - 1].0, s[j].0));
                            }
                        }
                        assert(rest[0] == all[j]);
                    }
                    cur = step(&mut current);
                    proof {
                        c = j;
                    }
                }
                proof {
                    j = j + 1;
                }
            },
            _ => {
                break ;
            },
        }
    }
    proof {
        lemma_plan_by_fits(map@, s, joins);
        assert(replied(predicate, s, joins));
        assert forall|s2: Seq<(K, V)>| #[trigger] entries_of(s2, map@) implies exists|
            joins: Seq<bool>,
        | #[trigger]
            replied(predicate, s2, joins) && plan@ == plan_by(s2, joins, s2.len() as int) by {
            lemma_entries_unique(s2, s, map@);
            assert(replied(predicate, s2, joins) && plan@ == plan_by(s2, joins, n));
        }
        assert forall|s2: Seq<(K, V)>, p: Matches<K, V>|
            entries_of(s2, map@) && decides(predicate, p) implies plan@ == #[trigger] plan_of(
            s2,
            p,
        ) by {
            lemma_entries_unique(s2, s, map@);
            lemma_replied_marks(predicate, s, joins, p);
            lemma_marks_plan(joins, s, p, n);
        }
    }
    plan
}

/// Carries out a list of merge instructions on `map`, in order: each source
/// entry is removed and handed to `absorb` together with its key, the key of
/// the destination entry and mutable access to the destination's value.
///
/// The instructions must fit the keys of `map`, and `absorb` must accept the
/// destination of each instruction with any value, together with its source
/// as it is in `map`. The map loses the sources and nothing else; a value
/// that is no destination stays as it was; and where `absorb` computes a
/// function of what it is given, the map is the one that this function gives
/// instruction by instruction.
pub fn apply_merges<K, V, M>(map: &mut BTreeMap<K, V>, plan: Vec<(K, K)>, mut absorb: M) where
    K: Ord,
    M: FnMut((&K, &mut V), (&K, V)),

    requires
        total_order::<K>(),
        plan_fits(plan@, old(map)@.dom()),
        forall|d: (&K, &mut V), e: (&K, V), t: int|
            0 <= t < plan@.len() && (*d.0, *e.0) == #[trigger] plan@[t] && e.1 == old(map)@[*e.0]
                ==> #[trigger] call_requires(absorb, (d, e)),
    ensures
        final(map)@.dom() == old(map)@.dom().difference(sources(plan@, plan@.len() as int)),
        forall|k: K| #[trigger]
            final(map)@.contains_key(k) && !names_destination(plan@, k) ==> final(map)@[k] == old(
                map,
            )@[k],
        forall|f: Fold<K, V>|
            (forall|d: (&K, &mut V), e: (&K, V)| #[trigger]
                call_ensures(absorb, (d, e), ()) ==> *final(d.1) == f((*d.0, *d.1), (*e.0, e.1)))
                ==> final(map)@ == #[trigger] applied(old(map)@, plan@, f, plan@.len() as int),
{
    let ghost given = absorb;
    let mut t: usize = 0;
    while t < plan.len()
        invariant
            absorb == given,
            total_order::<K>(),
            t <= plan.len(),
            plan_fits(plan@, old(map)@.dom()),
            forall|d: (&K, &mut V), e: (&K, V), t: int|
                0 <= t < plan@.len() && (*d.0, *e.0) == #[trigger] plan@[t] && e.1 == old(
                    map,
                )@[*e.0] ==> #[trigger] call_requires(absorb, (d, e)),
            map@.dom() == old(map)@.dom().difference(sources(plan@, t as int)),
            forall|u: int|
                t <= u < plan.len() ==> map@[(#[trigger] plan@[u]).1] == old(map)@[plan@[u].1],
            forall|k: K| #[trigger]
                map@.contains_key(k) && !names_destination(plan@, k) ==> map@[k] == old(map)@[k],
            forall|f: Fold<K, V>|
                (forall|d: (&K, &mut V), e: (&K, V)| #[trigger]
                    call_ensures(absorb, (d, e), ()) ==> *final(d.1) == f(
                        (*d.0, *d.1),
                        (*e.0, e.1),
                    )) ==> map@ == #[trigger] applied(old(map)@, plan@, f, t as int),
        decreases plan.len() - t,
    {
        let dest = &plan[t].0;
        let src = &plan[t].1;
        let ghost before = map@;
        assert(plan@[t as int].1 == *src && plan@[t as int].0 == *dest);
        assert(!sources(plan@, t as int).contains(*src));
        assert(!sources(plan@, t as int).contains(*dest));
        let src_element = map.remove(src).unwrap();
        let dst_element = value_mut(map, dest).unwrap();
        absorb((dest, dst_element), (src, src_element));
        t += 1;
        assert(sources(plan@, t as int) == sources(plan@, t - 1).insert(*src));
        assert forall|f: Fold<K, V>|
            (forall|d: (&K, &mut V), e: (&K, V)| #[trigger]
                call_ensures(absorb, (d, e), ()) ==> *final(d.1) == f(
                    (*d.0, *d.1),
                    (*e.0, e.1),
                )) implies map@ == #[trigger] applied(old(map)@, plan@, f, t as int) by {
            assert(before == applied(old(map)@, plan@, f, t - 1));
            assert(map@ == before.remove(*src).insert(
                *dest,
                f((*dest, before[*dest]), (*src, before[*src])),
            ));
        }
    }
}

/// Merges runs of entries of `map`: plans the merges in a scan of the map as
/// it was given, and then carries them out in place.
///
/// In ascending key order, each entry is compared with the current
/// representative, starting with the first entry: where `predicate` holds,
/// the entry is removed and `absorb` folds it into the representative; where
/// it does not, the entry becomes the representative. `predicate` sees the
/// entries as they were given, before any merge.
///
/// `predicate` must accept any two entries of `map` of which the first has
/// the lesser key, and `absorb` must accept the key of an entry of `map` with
/// any value, together with any entry of `map` with a greater key. No key is
/// added. The map keeps the entries that the answers of `predicate` leave
/// unmarked, those that no marked entry follows with the values they had.
/// Where `predicate` and `absorb` compute functions of what they are given,
/// the map is the merge that the model defines for these functions.
pub fn merge<K, V, P, M>(map: &mut BTreeMap<K, V>, predicate: P, absorb: M) where
    K: Clone + Ord,
    P: FnMut((&K, &V), (&K, &V)) -> bool,
    M: FnMut((&K, &mut V), (&K, V)),

    requires
        total_order::<K>(),
        faithful_clone::<K>(),
        forall|a: (&K, &V), b: (&K, &V)|
            old(map)@.contains_pair(*a.0, *a.1) && old(map)@.contains_pair(*b.0, *b.1) && key_lt(
                *a.0,
                *b.0,
            ) ==> #[trigger] call_requires(predicate, (a, b)),
        forall|d: (&K, &mut V), e: (&K, V)|
            old(map)@.contains_key(*d.0) && old(map)@.contains_pair(*e.0, e.1) && key_lt(
                *d.0,
                *e.0,
            ) ==> #[trigger] call_requires(absorb, (d, e)),
    ensures
        final(map)@.dom().subset_of(old(map)@.dom()),
        exists|s: Seq<(K, V)>| #[trigger] entries_of(s, old(map)@),
        forall|s: Seq<(K, V)>| #[trigger]
            entries_of(s, old(map)@) ==> exists|joins: Seq<bool>| #[trigger]
                replied(predicate, s, joins) && keeps_unmarked(final(map)@, s, joins),
        forall|s: Seq<(K, V)>, p: Matches<K, V>|
            entries_of(s, old(map)@) && decides(predicate, p) ==> #[trigger] keeps_survivors(
                final(map)@,
                s,
                p,
            ),
        forall|s: Seq<(K, V)>, p: Matches<K, V>, f: Fold<K, V>|
            entries_of(s, old(map)@) && decides(predicate, p) && (forall|
                d: (&K, &mut V),
                e: (&K, V),
            | #[trigger]
                call_ensures(absorb, (d, e), ()) ==> *final(d.1) == f((*d.0, *d.1), (*e.0, e.1)))
                ==> final(map)@ == #[trigger] merged(s, p, f),
{
    let plan = plan_merges(map, predicate);
    let ghost plan_seq = plan@;
    apply_merges(map, plan, absorb);
    proof {
        assert forall|s: Seq<(K, V)>| #[trigger] entries_of(s, old(map)@) implies exists|
            joins: Seq<bool>,
        | #[trigger] replied(predicate, s, joins) && keeps_unmarked(map@, s, joins) by {
            let joins = choose|joins: Seq<bool>| #[trigger]
                replied(predicate, s, joins) && plan_seq == plan_by(s, joins, s.len() as int);
            lemma_plan_keeps_unmarked(old(map)@, map@, s, joins);
        }
        assert forall|s: Seq<(K, V)>, p: Matches<K, V>|
            entries_of(s, old(map)@) && decides(predicate, p) implies #[trigger] keeps_survivors(
            map@,
            s,
            p,
        ) by {
            let joins = choose|joins: Seq<bool>| #[trigger]
                replied(predicate, s, joins) && keeps_unmarked(map@, s, joins);
            lemma_replied_marks(predicate, s, joins, p);
            lemma_marks_keep_survivors(map@, joins, s, p);
        }
        assert forall|s: Seq<(K, V)>, p: Matches<K, V>, f: Fold<K, V>|
            entries_of(s, old(map)@) && decides(predicate, p) && (forall|
                d: (&K, &mut V),
                e: (&K, V),
            | #[trigger]
                call_ensures(absorb, (d, e), ()) ==> *final(d.1) == f(
                    (*d.0, *d.1),
                    (*e.0, e.1),
                )) implies map@ == #[trigger] merged(s, p, f) by {
            assert(plan_seq == plan_of(s, p));
            assert(map@ == applied(old(map)@, plan_seq, f, plan_seq.len() as int));
            lemma_applied_plan_is_merged(old(map)@, s, p, f);
        }
    }
}

} // verus!

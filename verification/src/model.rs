//! The mathematical model of merging.
//!
//! A container is modelled by the sequence of its entries in ascending key
//! order. Merging partitions that sequence into runs: each run starts at a
//! *representative* entry and extends over the following entries for as long
//! as each of them, on its own, matches the representative as it was given. A
//! run collapses into its representative, whose value absorbs the values of
//! the run's other entries from left to right.
//!
//! The model comes in two forms. Where the predicate and the fold are
//! functions, [`merged`] is the container that results, [`survivors`] its
//! ascending listing and [`plan_of`] the instructions that lead to it. Where
//! only the answers of a predicate are known, as marks on the entries,
//! [`keeps_unmarked`] says which entries are left and [`plan_by`] which
//! instructions the marks call for.

use vstd::prelude::*;

verus! {

// A predicate and a fold, as functions.

/// Decides whether a candidate entry joins the run of a representative entry.
pub type Matches<K, V> = spec_fn((K, V), (K, V)) -> bool;

/// Gives the value a destination entry holds after it has absorbed a source entry.
pub type Fold<K, V> = spec_fn((K, V), (K, V)) -> V;

// Runs: which entries a predicate puts together, and what a fold makes of them.

/// The index of the representative of the run that entry `i` belongs to.
///
/// Entry `0` represents itself. A later entry joins the run of the entry before
/// it if it matches that run's representative as it stood in `s`; otherwise it
/// starts a run of its own.
pub open spec fn leader<K, V>(s: Seq<(K, V)>, p: Matches<K, V>, i: int) -> int
    decreases i,
{
    if i <= 0 {
        0
    } else {
        let l = leader(s, p, i - 1);
        if p(s[l], s[i]) {
            l
        } else {
            i
        }
    }
}

/// Whether entry `i` starts a run, and so survives the merge.
pub open spec fn survives<K, V>(s: Seq<(K, V)>, p: Matches<K, V>, i: int) -> bool {
    leader(s, p, i) == i
}

/// Whether the run that entry `j` starts ends with entry `e`.
pub open spec fn run_ends<K, V>(s: Seq<(K, V)>, p: Matches<K, V>, j: int, e: int) -> bool {
    &&& 0 <= j <= e < s.len()
    &&& survives(s, p, j)
    &&& leader(s, p, e) == j
    &&& e + 1 < s.len() ==> survives(s, p, e + 1)
}

/// The value of entry `j` after it has absorbed the entries `j + 1 ..= e`, in that order.
pub open spec fn folded<K, V>(s: Seq<(K, V)>, f: Fold<K, V>, j: int, e: int) -> V
    decreases e - j,
{
    if e <= j {
        s[j].1
    } else {
        f((s[j].0, folded(s, f, j, e - 1)), s[e])
    }
}

/// The value that the representative of entry `i` holds once the entries up to
/// and including `i` have been merged.
pub open spec fn carried<K, V>(s: Seq<(K, V)>, p: Matches<K, V>, f: Fold<K, V>, i: int) -> V {
    folded(s, f, leader(s, p, i), i)
}

/// The container that results from merging the first `n` entries of `s`.
pub open spec fn merged_prefix<K, V>(
    s: Seq<(K, V)>,
    p: Matches<K, V>,
    f: Fold<K, V>,
    n: int,
) -> Map<K, V>
    decreases n,
{
    if n <= 0 {
        Map::empty()
    } else {
        merged_prefix(s, p, f, n - 1).insert(s[leader(s, p, n - 1)].0, carried(s, p, f, n - 1))
    }
}

/// The container that results from merging all of `s`.
pub open spec fn merged<K, V>(s: Seq<(K, V)>, p: Matches<K, V>, f: Fold<K, V>) -> Map<K, V> {
    merged_prefix(s, p, f, s.len() as int)
}

/// The entries that are left of the first `n` entries of `s`, in ascending
/// key order: the representatives, each with what it has absorbed so far.
pub open spec fn survivors_prefix<K, V>(
    s: Seq<(K, V)>,
    p: Matches<K, V>,
    f: Fold<K, V>,
    n: int,
) -> Seq<(K, V)>
    decreases n,
{
    if n <= 0 {
        Seq::empty()
    } else if survives(s, p, n - 1) {
        survivors_prefix(s, p, f, n - 1).push(s[n - 1])
    } else {
        survivors_prefix(s, p, f, n - 1).drop_last().push(
            (s[leader(s, p, n - 1)].0, carried(s, p, f, n - 1)),
        )
    }
}

/// The entries that are left of `s`, in ascending key order.
pub open spec fn survivors<K, V>(s: Seq<(K, V)>, p: Matches<K, V>, f: Fold<K, V>) -> Seq<(K, V)> {
    survivors_prefix(s, p, f, s.len() as int)
}

/// Whether `k` is the key of an entry of `s` that starts a run.
pub open spec fn survivor_key<K, V>(s: Seq<(K, V)>, p: Matches<K, V>, k: K) -> bool {
    exists|i: int| 0 <= i < s.len() && survives(s, p, i) && #[trigger] s[i].0 == k
}

/// Whether `after` holds exactly the keys of the entries of `s` that start a
/// run, and holds each entry that is a run by itself as it is in `s`.
pub open spec fn keeps_survivors<K, V>(after: Map<K, V>, s: Seq<(K, V)>, p: Matches<K, V>) -> bool {
    &&& forall|k: K| #[trigger] after.contains_key(k) <==> survivor_key(s, p, k)
    &&& forall|j: int| #[trigger] run_ends(s, p, j, j) ==> after.contains_pair(s[j].0, s[j].1)
}

// Marks: which entries a pass has found to belong to the run before them.

/// Whether `joins` marks exactly the entries of `s` that do not start a run.
pub open spec fn marks<K, V>(joins: Seq<bool>, s: Seq<(K, V)>, p: Matches<K, V>) -> bool {
    &&& joins.len() == s.len()
    &&& forall|i: int| 0 <= i < s.len() ==> #[trigger] joins[i] == !survives(s, p, i)
}

/// The index of the last entry at or before entry `i` that `joins` does not mark.
pub open spec fn rep_of(joins: Seq<bool>, i: int) -> int
    decreases i,
{
    if i <= 0 {
        0
    } else if joins[i] {
        rep_of(joins, i - 1)
    } else {
        i
    }
}

/// The keys of the entries among the first `n` of `s` that `joins` does not mark.
pub open spec fn unmarked_keys<K, V>(s: Seq<(K, V)>, joins: Seq<bool>, n: int) -> Seq<K>
    decreases n,
{
    if n <= 0 {
        Seq::empty()
    } else if joins[n - 1] {
        unmarked_keys(s, joins, n - 1)
    } else {
        unmarked_keys(s, joins, n - 1).push(s[n - 1].0)
    }
}

/// The keys of the entries of `s`, in order.
pub open spec fn keys_of<K, V>(s: Seq<(K, V)>) -> Seq<K> {
    s.map_values(|e: (K, V)| e.0)
}

/// Whether `kept` holds, as it is in `s`, each entry among the first `n` of
/// `s` that is not marked and is not followed by a marked entry among them.
pub open spec fn holds_untouched<K, V>(
    kept: Seq<(K, V)>,
    s: Seq<(K, V)>,
    joins: Seq<bool>,
    n: int,
) -> bool {
    forall|i: int|
        0 <= i < n && !(#[trigger] joins[i]) && (i + 1 >= n || !joins[i + 1]) ==> kept.contains(
            s[i],
        )
}

/// Whether `after` holds exactly the keys of the entries of `s` that `joins`
/// does not mark, and holds each unmarked entry that no marked entry follows
/// as it is in `s`.
pub open spec fn keeps_unmarked<K, V>(after: Map<K, V>, s: Seq<(K, V)>, joins: Seq<bool>) -> bool {
    &&& forall|k: K| #[trigger]
        after.contains_key(k) <==> unmarked_keys(s, joins, s.len() as int).contains(k)
    &&& forall|i: int|
        0 <= i < s.len() && !(#[trigger] joins[i]) && (i + 1 >= s.len() || !joins[i + 1])
            ==> after.contains_pair(s[i].0, s[i].1)
}

// Plans: merges as a list of instructions.

/// The merge instructions, as (destination key, source key), that the first
/// `n` entries of `s` give rise to, in ascending order of the source.
pub open spec fn plan_prefix<K, V>(s: Seq<(K, V)>, p: Matches<K, V>, n: int) -> Seq<(K, K)>
    decreases n,
{
    if n <= 1 {
        Seq::empty()
    } else if survives(s, p, n - 1) {
        plan_prefix(s, p, n - 1)
    } else {
        plan_prefix(s, p, n - 1).push((s[leader(s, p, n - 1)].0, s[n - 1].0))
    }
}

/// The merge instructions for all of `s`.
pub open spec fn plan_of<K, V>(s: Seq<(K, V)>, p: Matches<K, V>) -> Seq<(K, K)> {
    plan_prefix(s, p, s.len() as int)
}

/// The merge instructions that the marks on the first `n` entries of `s` call
/// for: each marked entry is folded into the last unmarked entry before it.
pub open spec fn plan_by<K, V>(s: Seq<(K, V)>, joins: Seq<bool>, n: int) -> Seq<(K, K)>
    decreases n,
{
    if n <= 1 {
        Seq::empty()
    } else if joins[n - 1] {
        plan_by(s, joins, n - 1).push((s[rep_of(joins, n - 1)].0, s[n - 1].0))
    } else {
        plan_by(s, joins, n - 1)
    }
}

/// Whether a list of instructions can be carried out on a container holding
/// the keys `keys`: every key it names is present, no key is a source twice,
/// and no key is both a source and a destination.
pub open spec fn plan_fits<K>(plan: Seq<(K, K)>, keys: Set<K>) -> bool {
    &&& forall|t: int|
        0 <= t < plan.len() ==> keys.contains(#[trigger] plan[t].0) && keys.contains(plan[t].1)
    &&& forall|t: int, u: int|
        0 <= t < plan.len() && 0 <= u < plan.len() ==> (#[trigger] plan[t]).0 != (
        #[trigger] plan[u]).1
    &&& forall|t: int, u: int|
        0 <= t < u < plan.len() ==> (#[trigger] plan[t]).1 != (#[trigger] plan[u]).1
}

/// Whether some instruction of `plan` folds into the entry with key `k`.
pub open spec fn names_destination<K>(plan: Seq<(K, K)>, k: K) -> bool {
    exists|u: int| 0 <= u < plan.len() && (#[trigger] plan[u]).0 == k
}

/// The keys that the first `t` instructions of `plan` remove.
pub open spec fn sources<K>(plan: Seq<(K, K)>, t: int) -> Set<K> {
    Set::new(|k: K| exists|u: int| 0 <= u < t && u < plan.len() && #[trigger] plan[u].1 == k)
}

/// The container `m` after the first `t` instructions of `plan` have been
/// carried out: each removes its source entry and folds it into the
/// destination entry.
pub open spec fn applied<K, V>(m: Map<K, V>, plan: Seq<(K, K)>, f: Fold<K, V>, t: int) -> Map<
    K,
    V,
>
    decreases t,
{
    if t <= 0 {
        m
    } else {
        let before = applied(m, plan, f, t - 1);
        let (dest, src) = plan[t - 1];
        before.remove(src).insert(dest, f((dest, before[dest]), (src, before[src])))
    }
}

// Sequences of entries as maps.

/// The map that holds the first `n` entries of `s`.
pub open spec fn as_map<K, V>(s: Seq<(K, V)>, n: int) -> Map<K, V>
    decreases n,
{
    if n <= 0 {
        Map::empty()
    } else {
        as_map(s, n - 1).insert(s[n - 1].0, s[n - 1].1)
    }
}

} // verus!

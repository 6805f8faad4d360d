//! What holds of every merge, whatever the predicate and the fold.

use crate::lemmas::{
    lemma_as_map_of_entries, lemma_leader_bounds, lemma_merged_prefix_keys,
    lemma_runs_are_unbroken, lemma_survivors_last, lemma_survivors_lists_merged,
    lemma_unmarked_keys_member,
};
use crate::model::{
    as_map, carried, folded, keeps_survivors, keeps_unmarked, leader, merged, merged_prefix,
    plan_of, plan_prefix, run_ends, survives, survivors, survivors_prefix, Fold, Matches,
};
use crate::order::{ascending, entries_of, lemma_ascending_distinct, total_order};
use vstd::prelude::*;

verus! {

/// Whether no entry of `s` matches the entry just before it.
pub open spec fn no_neighbours_match<K, V>(s: Seq<(K, V)>, p: Matches<K, V>) -> bool {
    forall|i: int| 0 < i < s.len() ==> !p(s[i - 1], #[trigger] s[i])
}

/// Whether every fold that the merge of `s` makes gives a value that `val`
/// reads as the sum of the two values folded.
pub open spec fn folds_add<K, V>(
    s: Seq<(K, V)>,
    p: Matches<K, V>,
    f: Fold<K, V>,
    val: spec_fn(V) -> int,
) -> bool {
    forall|i: int|
        0 < i < s.len() && !survives(s, p, i) ==> val(#[trigger] carried(s, p, f, i)) == val(
            carried(s, p, f, i - 1),
        ) + val(s[i].1)
}

/// The sum of what `val` gives for the values of the first `n` entries of `s`.
pub open spec fn total<K, V>(s: Seq<(K, V)>, val: spec_fn(V) -> int, n: int) -> int
    decreases n,
{
    if n <= 0 {
        0
    } else {
        total(s, val, n - 1) + val(s[n - 1].1)
    }
}

/// Where no entry matches the entry before it, every entry starts a run.
proof fn lemma_all_survive<K, V>(s: Seq<(K, V)>, p: Matches<K, V>, i: int)
    requires
        no_neighbours_match(s, p),
        0 <= i < s.len(),
    ensures
        survives(s, p, i),
    decreases i,
{
    if i > 0 {
        lemma_all_survive(s, p, i - 1);
    }
}

/// Where no entry matches the entry before it, merging a prefix leaves it as it is.
proof fn lemma_unmatched_prefix<K, V>(s: Seq<(K, V)>, p: Matches<K, V>, f: Fold<K, V>, n: int)
    requires
        no_neighbours_match(s, p),
        0 <= n <= s.len(),
    ensures
        merged_prefix(s, p, f, n) == as_map(s, n),
        survivors_prefix(s, p, f, n) == s.take(n),
        plan_prefix(s, p, n) == Seq::<(K, K)>::empty(),
    decreases n,
{
    if n > 0 {
        lemma_unmatched_prefix(s, p, f, n - 1);
        lemma_all_survive(s, p, n - 1);
        assert(survivors_prefix(s, p, f, n) =~= s.take(n));
    } else {
        assert(survivors_prefix(s, p, f, n) =~= s.take(n));
    }
}

/// Merging changes nothing where no entry matches the entry before it: the
/// container keeps its keys, its values and their order, and the plan of a
/// scan is empty.
pub proof fn law_no_match_no_change<K: Ord, V>(
    m: Map<K, V>,
    s: Seq<(K, V)>,
    p: Matches<K, V>,
    f: Fold<K, V>,
)
    requires
        total_order::<K>(),
        entries_of(s, m),
        no_neighbours_match(s, p),
    ensures
        merged(s, p, f) == m,
        survivors(s, p, f) == s,
        plan_of(s, p) == Seq::<(K, K)>::empty(),
{
    lemma_unmatched_prefix(s, p, f, s.len() as int);
    lemma_as_map_of_entries(s, m);
    assert(s.take(s.len() as int) =~= s);
}

/// Where no entry matches the entry before it, a container that holds the
/// survivors of a merge is the container that was given, whatever the fold
/// would have done.
pub proof fn law_no_match_keeps_all<K: Ord, V>(
    m: Map<K, V>,
    after: Map<K, V>,
    s: Seq<(K, V)>,
    p: Matches<K, V>,
)
    requires
        total_order::<K>(),
        entries_of(s, m),
        no_neighbours_match(s, p),
        keeps_survivors(after, s, p),
    ensures
        after == m,
{
    assert forall|k: K| m.contains_key(k) implies #[trigger] after.contains_key(k) && after[k]
        == m[k] by {
        let i = choose|i: int| 0 <= i < s.len() && s[i].0 == k;
        lemma_all_survive(s, p, i);
        if i + 1 < s.len() {
            lemma_all_survive(s, p, i + 1);
        }
        assert(run_ends(s, p, i, i));
        assert(m.contains_pair(s[i].0, s[i].1));
    }
    assert forall|k: K| after.contains_key(k) implies #[trigger] m.contains_key(k) by {
        let i = choose|i: int| 0 <= i < s.len() && survives(s, p, i) && #[trigger] s[i].0 == k;
        assert(m.contains_pair(s[i].0, s[i].1));
    }
    assert(after.dom() =~= m.dom());
    assert(after =~= m);
}

/// A container that holds the unmarked entries is the container that was
/// given where no entry is marked: where the predicate never answers that
/// two entries match, nothing changes, whatever the fold would have done.
pub proof fn law_unmarked_keeps_all<K: Ord, V>(
    m: Map<K, V>,
    after: Map<K, V>,
    s: Seq<(K, V)>,
    joins: Seq<bool>,
)
    requires
        total_order::<K>(),
        entries_of(s, m),
        joins.len() == s.len(),
        forall|i: int| 0 <= i < joins.len() ==> !joins[i],
        keeps_unmarked(after, s, joins),
    ensures
        after == m,
{
    let n = s.len() as int;
    assert forall|k: K| m.contains_key(k) implies #[trigger] after.contains_key(k) && after[k]
        == m[k] by {
        let i = choose|i: int| 0 <= i < s.len() && s[i].0 == k;
        assert(!joins[i]);
        assert(m.contains_pair(s[i].0, s[i].1));
        assert(after.contains_pair(s[i].0, s[i].1));
    }
    assert forall|k: K| after.contains_key(k) implies #[trigger] m.contains_key(k) by {
        lemma_unmarked_keys_member(s, joins, n, k);
        let i = choose|i: int| 0 <= i < n && !joins[i] && #[trigger] s[i].0 == k;
        assert(m.contains_pair(s[i].0, s[i].1));
    }
    assert(after.dom() =~= m.dom());
    assert(after =~= m);
}

/// The sum over a sequence with one more entry.
proof fn lemma_total_push<K, V>(s: Seq<(K, V)>, val: spec_fn(V) -> int, e: (K, V))
    ensures
        total(s.push(e), val, s.len() as int + 1) == total(s, val, s.len() as int) + val(e.1),
{
    lemma_total_agrees(s.push(e), s, val, s.len() as int);
}

/// The sum over a prefix does not depend on the entries behind the prefix.
proof fn lemma_total_agrees<K, V>(a: Seq<(K, V)>, b: Seq<(K, V)>, val: spec_fn(V) -> int, n: int)
    requires
        0 <= n <= a.len(),
        n <= b.len(),
        forall|i: int| 0 <= i < n ==> a[i] == b[i],
    ensures
        total(a, val, n) == total(b, val, n),
    decreases n,
{
    if n > 0 {
        lemma_total_agrees(a, b, val, n - 1);
    }
}

/// Where each fold adds, the entries left of a prefix sum to what the prefix sums to.
proof fn lemma_total_prefix<K, V>(
    s: Seq<(K, V)>,
    p: Matches<K, V>,
    f: Fold<K, V>,
    val: spec_fn(V) -> int,
    n: int,
)
    requires
        folds_add(s, p, f, val),
        0 <= n <= s.len(),
    ensures
        total(survivors_prefix(s, p, f, n), val, survivors_prefix(s, p, f, n).len() as int)
            == total(s, val, n),
    decreases n,
{
    if n > 0 {
        let prev = survivors_prefix(s, p, f, n - 1);
        lemma_total_prefix(s, p, f, val, n - 1);
        if survives(s, p, n - 1) {
            lemma_total_push(prev, val, s[n - 1]);
        } else {
            let l = leader(s, p, n - 1);
            lemma_survivors_last(s, p, f, n - 1);
            assert(prev =~= prev.drop_last().push(prev.last()));
            lemma_total_push(prev.drop_last(), val, prev.last());
            lemma_total_push(prev.drop_last(), val, (s[l].0, carried(s, p, f, n - 1)));
        }
    }
}

/// Merging keeps the sum of the values where each fold adds: for any reading
/// `val` of values as numbers under which every value that a fold of this
/// merge gives reads as the sum of the two values folded, the entries left
/// sum to what the entries given sum to.
pub proof fn law_sum_is_kept<K: Ord, V>(
    m: Map<K, V>,
    s: Seq<(K, V)>,
    p: Matches<K, V>,
    f: Fold<K, V>,
    val: spec_fn(V) -> int,
)
    requires
        total_order::<K>(),
        entries_of(s, m),
        folds_add(s, p, f, val),
    ensures
        entries_of(survivors(s, p, f), merged(s, p, f)),
        total(survivors(s, p, f), val, survivors(s, p, f).len() as int) == total(
            s,
            val,
            s.len() as int,
        ),
{
    lemma_survivors_lists_merged(s, p, f);
    lemma_total_prefix(s, p, f, val, s.len() as int);
}

/// Merging keeps the sum of the values where the fold adds whatever it is
/// given: for any reading `val` of values as numbers under which a folded
/// value always reads as the sum of the two values folded, the entries left
/// sum to what the entries given sum to.
pub proof fn law_adding_fold_keeps_sum<K: Ord, V>(
    m: Map<K, V>,
    s: Seq<(K, V)>,
    p: Matches<K, V>,
    f: Fold<K, V>,
    val: spec_fn(V) -> int,
)
    requires
        total_order::<K>(),
        entries_of(s, m),
        forall|d: (K, V), e: (K, V)| val(#[trigger] f(d, e)) == val(d.1) + val(e.1),
    ensures
        entries_of(survivors(s, p, f), merged(s, p, f)),
        total(survivors(s, p, f), val, survivors(s, p, f).len() as int) == total(
            s,
            val,
            s.len() as int,
        ),
{
    assert forall|i: int| 0 < i < s.len() && !survives(s, p, i) implies val(
        #[trigger] carried(s, p, f, i),
    ) == val(carried(s, p, f, i - 1)) + val(s[i].1) by {
        lemma_leader_bounds(s, p, i - 1);
    }
    law_sum_is_kept(m, s, p, f, val);
}

/// A later entry has a later, or the same, representative.
proof fn lemma_leader_monotone<K, V>(s: Seq<(K, V)>, p: Matches<K, V>, x: int, i: int)
    requires
        0 <= x <= i,
    ensures
        leader(s, p, x) <= leader(s, p, i),
    decreases i,
{
    lemma_leader_bounds(s, p, x);
    if x < i {
        lemma_leader_monotone(s, p, x, i - 1);
    }
}

/// A run has no gaps: every entry from a representative up to an entry of
/// its run belongs to the run, and those behind the representative match it.
/// So two entries are never merged across an entry that does not match.
pub proof fn law_runs_are_unbroken<K, V>(s: Seq<(K, V)>, p: Matches<K, V>, x: int, i: int)
    requires
        0 <= x <= i,
        leader(s, p, i) <= x,
    ensures
        leader(s, p, x) == leader(s, p, i),
        x > leader(s, p, i) ==> p(s[leader(s, p, i)], s[x]),
{
    lemma_runs_are_unbroken(s, p, x, i);
}

/// An entry is never merged into a representative across an entry that does
/// not match that representative.
pub proof fn law_no_merge_across_mismatch<K, V>(
    s: Seq<(K, V)>,
    p: Matches<K, V>,
    j: int,
    x: int,
    i: int,
)
    requires
        0 <= j < x < i,
        !p(s[j], s[x]),
    ensures
        leader(s, p, i) != j,
{
    if leader(s, p, i) == j {
        lemma_runs_are_unbroken(s, p, x, i);
    }
}

/// A chain of entries that each match the first of them, which starts a run,
/// is folded into that first entry, one entry after the other in ascending
/// key order.
pub proof fn law_chain_folds_into_first<K, V>(
    s: Seq<(K, V)>,
    p: Matches<K, V>,
    f: Fold<K, V>,
    a: int,
    b: int,
)
    requires
        0 <= a <= b,
        survives(s, p, a),
        forall|x: int| a < x <= b ==> p(s[a], #[trigger] s[x]),
    ensures
        leader(s, p, b) == a,
        carried(s, p, f, b) == folded(s, f, a, b),
    decreases b,
{
    if a < b {
        law_chain_folds_into_first(s, p, f, a, b - 1);
    }
}

/// The value of a representative is not touched by the merging of later runs.
proof fn lemma_later_runs_keep_value<K: Ord, V>(
    s: Seq<(K, V)>,
    p: Matches<K, V>,
    f: Fold<K, V>,
    j: int,
    e: int,
    n: int,
)
    requires
        total_order::<K>(),
        ascending(s),
        run_ends(s, p, j, e),
        e < n <= s.len(),
    ensures
        merged_prefix(s, p, f, n).contains_pair(s[j].0, folded(s, f, j, e)),
    decreases n,
{
    if n > e + 1 {
        lemma_later_runs_keep_value(s, p, f, j, e, n - 1);
        let l = leader(s, p, n - 1);
        lemma_leader_monotone(s, p, e + 1, n - 1);
        lemma_leader_bounds(s, p, n - 1);
        if s[l].0 == s[j].0 {
            lemma_ascending_distinct(s, l, j);
        }
    }
}

/// Merging keeps only keys that it was given, and each key that is left
/// holds the value it had, folded with the values of the rest of its run in
/// ascending key order; a key whose run is itself alone holds the value it
/// had.
pub proof fn law_kept_keys_and_values<K: Ord, V>(
    m: Map<K, V>,
    s: Seq<(K, V)>,
    p: Matches<K, V>,
    f: Fold<K, V>,
)
    requires
        total_order::<K>(),
        entries_of(s, m),
    ensures
        merged(s, p, f).dom().subset_of(m.dom()),
        forall|j: int, e: int| #[trigger]
            run_ends(s, p, j, e) ==> merged(s, p, f).contains_pair(s[j].0, folded(s, f, j, e)),
        forall|j: int| #[trigger] run_ends(s, p, j, j) ==> merged(s, p, f).contains_pair(
            s[j].0,
            s[j].1,
        ),
{
    assert forall|k: K| merged(s, p, f).contains_key(k) implies #[trigger] m.contains_key(k) by {
        lemma_merged_prefix_keys(s, p, f, s.len() as int, k);
        let i = choose|i: int| 0 <= i < s.len() && survives(s, p, i) && #[trigger] s[i].0 == k;
        assert(m.contains_pair(s[i].0, s[i].1));
    }
    assert forall|j: int, e: int| #[trigger] run_ends(s, p, j, e) implies merged(
        s,
        p,
        f,
    ).contains_pair(s[j].0, folded(s, f, j, e)) by {
        lemma_later_runs_keep_value(s, p, f, j, e, s.len() as int);
    }
}

} // verus!

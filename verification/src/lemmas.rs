//! Facts about the model of merging.

use crate::model::{
    applied, as_map, carried, holds_untouched, keeps_survivors, keeps_unmarked, keys_of, leader,
    marks, merged, merged_prefix, names_destination, plan_by, plan_fits, plan_of, plan_prefix,
    rep_of, run_ends, sources, survives, survivor_key, survivors, survivors_prefix,
    unmarked_keys, Fold, Matches,
};
use crate::order::{ascending, entries_of, key_lt, lemma_ascending_distinct, total_order};
use vstd::prelude::*;

verus! {

/// A representative is an entry at or before the entries of its run.
pub proof fn lemma_leader_bounds<K, V>(s: Seq<(K, V)>, p: Matches<K, V>, i: int)
    requires
        0 <= i,
    ensures
        0 <= leader(s, p, i) <= i,
    decreases i,
{
    if i > 0 {
        lemma_leader_bounds(s, p, i - 1);
    }
}

/// Merging a prefix of `s` keeps only keys of that prefix.
pub proof fn lemma_merged_prefix_keys<K, V>(
    s: Seq<(K, V)>,
    p: Matches<K, V>,
    f: Fold<K, V>,
    n: int,
    k: K,
)
    requires
        0 <= n <= s.len(),
        merged_prefix(s, p, f, n).contains_key(k),
    ensures
        exists|i: int| 0 <= i < n && survives(s, p, i) && #[trigger] s[i].0 == k,
    decreases n,
{
    if n > 0 {
        let l = leader(s, p, n - 1);
        lemma_leader_bounds(s, p, n - 1);
        lemma_leader_idempotent(s, p, n - 1);
        if k == s[l].0 {
            assert(survives(s, p, l) && s[l].0 == k);
        } else {
            lemma_merged_prefix_keys(s, p, f, n - 1, k);
        }
    }
}

/// The representative of a run represents itself.
pub proof fn lemma_leader_idempotent<K, V>(s: Seq<(K, V)>, p: Matches<K, V>, i: int)
    requires
        0 <= i,
    ensures
        survives(s, p, leader(s, p, i)),
    decreases i,
{
    if i > 0 {
        lemma_leader_idempotent(s, p, i - 1);
    }
}

/// What the first `t` instructions do does not depend on the later ones.
proof fn lemma_applied_agrees<K, V>(
    m: Map<K, V>,
    plan1: Seq<(K, K)>,
    plan2: Seq<(K, K)>,
    f: Fold<K, V>,
    t: int,
)
    requires
        0 <= t <= plan1.len(),
        t <= plan2.len(),
        forall|u: int| 0 <= u < t ==> plan1[u] == plan2[u],
    ensures
        applied(m, plan1, f, t) == applied(m, plan2, f, t),
    decreases t,
{
    if t > 0 {
        lemma_applied_agrees(m, plan1, plan2, f, t - 1);
    }
}

/// The container while a plan is being carried out: the entries of `s` from
/// index `n` on, untouched, and before them the merged prefix.
spec fn partly_merged<K, V>(
    m: Map<K, V>,
    s: Seq<(K, V)>,
    p: Matches<K, V>,
    f: Fold<K, V>,
    n: int,
) -> Map<K, V> {
    m.restrict(Set::new(|k: K| exists|i: int| n <= i < s.len() && #[trigger] s[i].0 == k))
        .union_prefer_right(merged_prefix(s, p, f, n))
}

/// Carrying out the instructions that the first `n` entries give rise to
/// merges those entries and leaves the others untouched.
proof fn lemma_applied_prefix<K: Ord, V>(
    m: Map<K, V>,
    s: Seq<(K, V)>,
    p: Matches<K, V>,
    f: Fold<K, V>,
    n: int,
)
    requires
        total_order::<K>(),
        entries_of(s, m),
        0 <= n <= s.len(),
    ensures
        applied(m, plan_prefix(s, p, n), f, plan_prefix(s, p, n).len() as int) == partly_merged(
            m,
            s,
            p,
            f,
            n,
        ),
    decreases n,
{
    let plan = plan_prefix(s, p, n);
    let goal = partly_merged(m, s, p, f, n);
    if n == 0 {
        assert forall|k: K| m.contains_key(k) implies #[trigger] goal.contains_key(k) by {
            let i = choose|i: int| 0 <= i < s.len() && s[i].0 == k;
            assert(0 <= i < s.len() && s[i].0 == k);
        }
        assert(goal =~= m);
    } else {
        let i = n - 1;
        let l = leader(s, p, i);
        let before_plan = plan_prefix(s, p, i);
        let before = partly_merged(m, s, p, f, i);
        lemma_applied_prefix(m, s, p, f, i);
        lemma_leader_bounds(s, p, i);
        assert(m.contains_pair(s[i].0, s[i].1));
        assert(m.contains_pair(s[l].0, s[l].1));
        assert(!merged_prefix(s, p, f, i).contains_key(s[i].0)) by {
            if merged_prefix(s, p, f, i).contains_key(s[i].0) {
                lemma_merged_prefix_keys(s, p, f, i, s[i].0);
                let x = choose|x: int|
                    0 <= x < i && survives(s, p, x) && #[trigger] s[x].0 == s[i].0;
                lemma_ascending_distinct(s, x, i);
            }
        }
        assert(before.contains_pair(s[i].0, s[i].1));
        if i == 0 || survives(s, p, i) {
            assert(plan == before_plan);
            assert(carried(s, p, f, i) == s[i].1);
            assert forall|k: K| before.contains_key(k) implies #[trigger] goal.contains_key(k)
                && goal[k] == before[k] by {
                if !merged_prefix(s, p, f, i).contains_key(k) && k != s[i].0 {
                    let x = choose|x: int| i <= x < s.len() && #[trigger] s[x].0 == k;
                    assert(n <= x < s.len() && s[x].0 == k);
                }
            }
            assert(goal.dom() =~= before.dom());
            assert(goal =~= before);
        } else {
            lemma_leader_bounds(s, p, i - 1);
            assert(l == leader(s, p, i - 1));
            assert(l < i);
            assert(plan == before_plan.push((s[l].0, s[i].0)));
            let t = before_plan.len() as int;
            lemma_applied_agrees(m, plan, before_plan, f, t);
            assert(applied(m, plan, f, t) == before);
            assert(merged_prefix(s, p, f, i).contains_pair(s[l].0, carried(s, p, f, i - 1)));
            assert(before[s[l].0] == carried(s, p, f, i - 1));
            assert(carried(s, p, f, i) == f((s[l].0, carried(s, p, f, i - 1)), s[i]));
            if s[l].0 == s[i].0 {
                lemma_ascending_distinct(s, l, i);
            }
            let after = before.remove(s[i].0).insert(s[l].0, carried(s, p, f, i));
            assert(applied(m, plan, f, t + 1) == after);
            assert forall|k: K| after.contains_key(k) implies #[trigger] goal.contains_key(k) by {
                if !merged_prefix(s, p, f, i).contains_key(k) && k != s[l].0 {
                    let x = choose|x: int| i <= x < s.len() && #[trigger] s[x].0 == k;
                    assert(n <= x < s.len() && s[x].0 == k);
                }
            }
            assert forall|k: K| goal.contains_key(k) implies #[trigger] after.contains_key(k)
                && after[k] == goal[k] by {
                if !merged_prefix(s, p, f, n).contains_key(k) {
                    let x = choose|x: int| n <= x < s.len() && #[trigger] s[x].0 == k;
                    assert(i <= x < s.len() && s[x].0 == k);
                    if k == s[i].0 {
                        lemma_ascending_distinct(s, x, i);
                    }
                    assert(!merged_prefix(s, p, f, i).contains_key(k));
                    assert(goal[k] == m[k]);
                    assert(after[k] == before[k]);
                } else if k != s[l].0 {
                    assert(merged_prefix(s, p, f, i).contains_key(k));
                    assert(goal[k] == merged_prefix(s, p, f, i)[k]);
                    assert(after[k] == before[k]);
                }
            }
            assert(goal.dom() =~= after.dom());
            assert(goal =~= after);
        }
    }
}

/// Carrying out the plan of a scan gives the merged container.
pub proof fn lemma_applied_plan_is_merged<K: Ord, V>(
    m: Map<K, V>,
    s: Seq<(K, V)>,
    p: Matches<K, V>,
    f: Fold<K, V>,
)
    requires
        total_order::<K>(),
        entries_of(s, m),
    ensures
        applied(m, plan_of(s, p), f, plan_of(s, p).len() as int) == merged(s, p, f),
{
    lemma_applied_prefix(m, s, p, f, s.len() as int);
    assert(partly_merged(m, s, p, f, s.len() as int) =~= merged(s, p, f));
}

/// The map of a prefix does not depend on the entries behind the prefix.
pub proof fn lemma_as_map_agrees<K, V>(a: Seq<(K, V)>, b: Seq<(K, V)>, n: int)
    requires
        0 <= n <= a.len(),
        n <= b.len(),
        forall|i: int| 0 <= i < n ==> a[i] == b[i],
    ensures
        as_map(a, n) == as_map(b, n),
    decreases n,
{
    if n > 0 {
        lemma_as_map_agrees(a, b, n - 1);
    }
}

/// The map of a prefix holds exactly the keys of the prefix.
pub proof fn lemma_as_map_keys<K, V>(s: Seq<(K, V)>, n: int, k: K)
    requires
        0 <= n <= s.len(),
    ensures
        as_map(s, n).contains_key(k) <==> exists|i: int| 0 <= i < n && #[trigger] s[i].0 == k,
    decreases n,
{
    if n > 0 {
        lemma_as_map_keys(s, n - 1, k);
        if as_map(s, n).contains_key(k) {
            if k == s[n - 1].0 {
                assert(0 <= n - 1 < n && s[n - 1].0 == k);
            } else {
                let i = choose|i: int| 0 <= i < n - 1 && #[trigger] s[i].0 == k;
                assert(0 <= i < n && s[i].0 == k);
            }
        }
        if exists|i: int| 0 <= i < n && #[trigger] s[i].0 == k {
            let i = choose|i: int| 0 <= i < n && #[trigger] s[i].0 == k;
            if i < n - 1 {
                assert(0 <= i < n - 1 && s[i].0 == k);
            }
        }
    }
}

/// The ascending listing of a map, taken as a map, is the map.
pub proof fn lemma_as_map_of_entries<K: Ord, V>(s: Seq<(K, V)>, m: Map<K, V>)
    requires
        total_order::<K>(),
        entries_of(s, m),
    ensures
        as_map(s, s.len() as int) == m,
{
    let n = s.len() as int;
    assert forall|k: K| as_map(s, n).contains_key(k) <==> m.contains_key(k) by {
        lemma_as_map_keys(s, n, k);
        if as_map(s, n).contains_key(k) {
            let i = choose|i: int| 0 <= i < n && #[trigger] s[i].0 == k;
            assert(m.contains_pair(s[i].0, s[i].1));
        }
        if m.contains_key(k) {
            let i = choose|i: int| 0 <= i < s.len() && s[i].0 == k;
            assert(0 <= i < n && s[i].0 == k);
        }
    }
    assert forall|k: K| as_map(s, n).contains_key(k) implies #[trigger] as_map(s, n)[k]
        == m[k] by {
        lemma_as_map_keys(s, n, k);
        let i = choose|i: int| 0 <= i < n && #[trigger] s[i].0 == k;
        lemma_as_map_value(s, n, i);
        assert(m.contains_pair(s[i].0, s[i].1));
    }
    assert(as_map(s, n).dom() =~= m.dom());
    assert(as_map(s, n) =~= m);
}

/// In the map of an ascending prefix, each key has the value it is listed with.
pub proof fn lemma_as_map_value<K: Ord, V>(s: Seq<(K, V)>, n: int, i: int)
    requires
        total_order::<K>(),
        ascending(s),
        0 <= i < n <= s.len(),
    ensures
        as_map(s, n).contains_pair(s[i].0, s[i].1),
    decreases n,
{
    if i < n - 1 {
        lemma_as_map_value(s, n - 1, i);
        if s[i].0 == s[n - 1].0 {
            lemma_ascending_distinct(s, i, n - 1);
        }
    }
}

/// The last entry left is the representative of the last entry merged.
pub proof fn lemma_survivors_last<K, V>(s: Seq<(K, V)>, p: Matches<K, V>, f: Fold<K, V>, n: int)
    requires
        0 < n,
    ensures
        survivors_prefix(s, p, f, n).len() > 0,
        survivors_prefix(s, p, f, n).last() == (s[leader(s, p, n - 1)].0, carried(s, p, f, n - 1)),
    decreases n,
{
    if n > 1 {
        lemma_survivors_last(s, p, f, n - 1);
    }
}

/// Every entry left has the key of a representative.
pub proof fn lemma_survivors_keys<K, V>(
    s: Seq<(K, V)>,
    p: Matches<K, V>,
    f: Fold<K, V>,
    n: int,
    y: int,
)
    requires
        0 <= n <= s.len(),
        0 <= y < survivors_prefix(s, p, f, n).len(),
    ensures
        exists|i: int|
            0 <= i < n && survives(s, p, i) && #[trigger] s[i].0 == survivors_prefix(
                s,
                p,
                f,
                n,
            )[y].0,
    decreases n,
{
    if n > 0 {
        let prev = survivors_prefix(s, p, f, n - 1);
        let now = survivors_prefix(s, p, f, n);
        let l = leader(s, p, n - 1);
        lemma_leader_bounds(s, p, n - 1);
        lemma_leader_idempotent(s, p, n - 1);
        if n > 1 {
            lemma_survivors_last(s, p, f, n - 1);
        }
        if y == now.len() - 1 {
            assert(now[y].0 == s[l].0);
            assert(0 <= l < n && survives(s, p, l) && s[l].0 == now[y].0);
        } else {
            assert(now[y] == prev[y]);
            lemma_survivors_keys(s, p, f, n - 1, y);
            let i = choose|i: int|
                0 <= i < n - 1 && survives(s, p, i) && #[trigger] s[i].0 == prev[y].0;
            assert(0 <= i < n && survives(s, p, i) && s[i].0 == now[y].0);
        }
    }
}

/// The entries left, taken as a map, are the merged container.
pub proof fn lemma_survivors_as_map<K, V>(s: Seq<(K, V)>, p: Matches<K, V>, f: Fold<K, V>, n: int)
    requires
        0 <= n,
    ensures
        as_map(survivors_prefix(s, p, f, n), survivors_prefix(s, p, f, n).len() as int)
            == merged_prefix(s, p, f, n),
    decreases n,
{
    if n > 0 {
        let prev = survivors_prefix(s, p, f, n - 1);
        let now = survivors_prefix(s, p, f, n);
        lemma_survivors_as_map(s, p, f, n - 1);
        if survives(s, p, n - 1) {
            lemma_as_map_agrees(now, prev, prev.len() as int);
        } else {
            lemma_survivors_last(s, p, f, n - 1);
            lemma_as_map_agrees(now, prev, prev.len() - 1);
            assert(as_map(now, now.len() as int) =~= merged_prefix(s, p, f, n));
        }
    }
}

/// The entries left are in ascending key order.
pub proof fn lemma_survivors_ascending<K: Ord, V>(
    s: Seq<(K, V)>,
    p: Matches<K, V>,
    f: Fold<K, V>,
    n: int,
)
    requires
        total_order::<K>(),
        ascending(s),
        0 <= n <= s.len(),
    ensures
        ascending(survivors_prefix(s, p, f, n)),
    decreases n,
{
    if n > 0 {
        let prev = survivors_prefix(s, p, f, n - 1);
        let now = survivors_prefix(s, p, f, n);
        lemma_survivors_ascending(s, p, f, n - 1);
        if n > 1 {
            lemma_survivors_last(s, p, f, n - 1);
        }
        assert forall|x: int, y: int| 0 <= x < y < now.len() implies key_lt(
            #[trigger] now[x].0,
            #[trigger] now[y].0,
        ) by {
            assert(now[x] == prev[x]);
            if survives(s, p, n - 1) {
                if y == now.len() - 1 {
                    lemma_survivors_keys(s, p, f, n - 1, x);
                    let i = choose|i: int|
                        0 <= i < n - 1 && survives(s, p, i) && #[trigger] s[i].0 == prev[x].0;
                    assert(key_lt(s[i].0, s[n - 1].0));
                } else {
                    assert(now[y] == prev[y]);
                }
            } else {
                assert(now[y].0 == prev[y].0);
            }
        }
    }
}

/// The entries left are the ascending listing of the merged container.
pub proof fn lemma_survivors_lists_merged<K: Ord, V>(
    s: Seq<(K, V)>,
    p: Matches<K, V>,
    f: Fold<K, V>,
)
    requires
        total_order::<K>(),
        ascending(s),
    ensures
        entries_of(survivors(s, p, f), merged(s, p, f)),
{
    let n = s.len() as int;
    let k = survivors(s, p, f);
    lemma_survivors_ascending(s, p, f, n);
    lemma_survivors_as_map(s, p, f, n);
    assert forall|i: int| 0 <= i < k.len() implies merged(s, p, f).contains_pair(
        #[trigger] k[i].0,
        k[i].1,
    ) by {
        lemma_as_map_value(k, k.len() as int, i);
    }
    assert forall|key: K| #[trigger] merged(s, p, f).contains_key(key) implies exists|i: int|
        0 <= i < k.len() && #[trigger] k[i].0 == key by {
        lemma_as_map_keys(k, k.len() as int, key);
    }
}

/// An unmarked key is the key of an unmarked entry, and the other way round.
pub proof fn lemma_unmarked_keys_member<K, V>(s: Seq<(K, V)>, joins: Seq<bool>, n: int, k: K)
    requires
        0 <= n <= s.len(),
    ensures
        unmarked_keys(s, joins, n).contains(k) <==> exists|i: int|
            0 <= i < n && !joins[i] && #[trigger] s[i].0 == k,
    decreases n,
{
    if n > 0 {
        let prev = unmarked_keys(s, joins, n - 1);
        let now = unmarked_keys(s, joins, n);
        lemma_unmarked_keys_member(s, joins, n - 1, k);
        if now.contains(k) {
            let x = choose|x: int| 0 <= x < now.len() && now[x] == k;
            if !joins[n - 1] && x == now.len() - 1 {
                assert(0 <= n - 1 < n && !joins[n - 1] && s[n - 1].0 == k);
            } else {
                assert(prev[x] == k);
                let i = choose|i: int| 0 <= i < n - 1 && !joins[i] && #[trigger] s[i].0 == k;
                assert(0 <= i < n && !joins[i] && s[i].0 == k);
            }
        }
        if exists|i: int| 0 <= i < n && !joins[i] && #[trigger] s[i].0 == k {
            let i = choose|i: int| 0 <= i < n && !joins[i] && #[trigger] s[i].0 == k;
            if i < n - 1 {
                assert(0 <= i < n - 1 && !joins[i] && s[i].0 == k);
                let x = choose|x: int| 0 <= x < prev.len() && prev[x] == k;
                assert(now[x] == k);
            } else {
                assert(now[now.len() - 1] == k);
            }
        }
    }
}

/// The unmarked keys of an ascending sequence are ascending.
pub proof fn lemma_unmarked_keys_ascending<K: Ord, V>(
    s: Seq<(K, V)>,
    joins: Seq<bool>,
    n: int,
    x: int,
    y: int,
)
    requires
        total_order::<K>(),
        ascending(s),
        0 <= n <= s.len(),
        0 <= x < y < unmarked_keys(s, joins, n).len(),
    ensures
        key_lt(unmarked_keys(s, joins, n)[x], unmarked_keys(s, joins, n)[y]),
    decreases n,
{
    let prev = unmarked_keys(s, joins, n - 1);
    if joins[n - 1] || y < prev.len() {
        lemma_unmarked_keys_ascending(s, joins, n - 1, x, y);
    } else {
        lemma_unmarked_keys_member(s, joins, n - 1, prev[x]);
        assert(prev.contains(prev[x]));
        let i = choose|i: int| 0 <= i < n - 1 && !joins[i] && #[trigger] s[i].0 == prev[x];
        assert(key_lt(s[i].0, s[n - 1].0));
    }
}

/// A run has no gaps: every entry from a representative up to an entry of
/// its run belongs to the run, and those behind the representative match it.
pub proof fn lemma_runs_are_unbroken<K, V>(s: Seq<(K, V)>, p: Matches<K, V>, x: int, i: int)
    requires
        0 <= x <= i,
        leader(s, p, i) <= x,
    ensures
        leader(s, p, x) == leader(s, p, i),
        x > leader(s, p, i) ==> p(s[leader(s, p, i)], s[x]),
    decreases i,
{
    if x < i {
        lemma_runs_are_unbroken(s, p, x, i - 1);
    }
}

/// Entries whose keys are the unmarked keys, and which hold the untouched
/// entries as they were, make a container that holds the unmarked entries.
pub proof fn lemma_kept_keeps_unmarked<K: Ord, V>(
    kept: Seq<(K, V)>,
    s: Seq<(K, V)>,
    joins: Seq<bool>,
)
    requires
        total_order::<K>(),
        ascending(s),
        keys_of(kept) == unmarked_keys(s, joins, s.len() as int),
        holds_untouched(kept, s, joins, s.len() as int),
    ensures
        keeps_unmarked(as_map(kept, kept.len() as int), s, joins),
{
    let n = s.len() as int;
    let after = as_map(kept, kept.len() as int);
    let uk = unmarked_keys(s, joins, n);
    assert(uk.len() == kept.len());
    assert forall|x: int, y: int| 0 <= x < y < kept.len() implies key_lt(
        #[trigger] kept[x].0,
        #[trigger] kept[y].0,
    ) by {
        lemma_unmarked_keys_ascending(s, joins, n, x, y);
        assert(uk[x] == kept[x].0 && uk[y] == kept[y].0);
    }
    assert forall|k: K| #[trigger] after.contains_key(k) <==> uk.contains(k) by {
        lemma_as_map_keys(kept, kept.len() as int, k);
        if after.contains_key(k) {
            let x = choose|x: int| 0 <= x < kept.len() && #[trigger] kept[x].0 == k;
            assert(uk[x] == k);
        }
        if uk.contains(k) {
            let x = choose|x: int| 0 <= x < uk.len() && uk[x] == k;
            assert(kept[x].0 == k);
        }
    }
    assert forall|i: int|
        0 <= i < s.len() && !(#[trigger] joins[i]) && (i + 1 >= s.len()
            || !joins[i + 1]) implies after.contains_pair(s[i].0, s[i].1) by {
        assert(kept.contains(s[i]));
        let x = choose|x: int| 0 <= x < kept.len() && kept[x] == s[i];
        lemma_as_map_value(kept, kept.len() as int, x);
    }
}

/// A container of fewer than two entries holds its entries unmarked.
pub proof fn lemma_short_keeps_unmarked<K: Ord, V>(m: Map<K, V>, s: Seq<(K, V)>)
    requires
        total_order::<K>(),
        entries_of(s, m),
        s.len() < 2,
    ensures
        keeps_unmarked(m, s, Seq::new(s.len(), |i: int| false)),
{
    let joins = Seq::new(s.len(), |i: int| false);
    let n = s.len() as int;
    assert forall|k: K| #[trigger] m.contains_key(k) <==> unmarked_keys(s, joins, n).contains(
        k,
    ) by {
        lemma_unmarked_keys_member(s, joins, n, k);
        if m.contains_key(k) {
            let i = choose|i: int| 0 <= i < s.len() && s[i].0 == k;
            assert(0 <= i < n && !joins[i] && s[i].0 == k);
        }
        if unmarked_keys(s, joins, n).contains(k) {
            let i = choose|i: int| 0 <= i < n && !joins[i] && #[trigger] s[i].0 == k;
            assert(m.contains_pair(s[i].0, s[i].1));
        }
    }
    assert forall|i: int|
        0 <= i < s.len() && !(#[trigger] joins[i]) && (i + 1 >= s.len()
            || !joins[i + 1]) implies m.contains_pair(s[i].0, s[i].1) by {
        assert(m.contains_pair(s[i].0, s[i].1));
    }
}

/// A container of fewer than two entries is its own merge.
pub proof fn lemma_short_is_merged<K: Ord, V>(m: Map<K, V>, s: Seq<(K, V)>, p: Matches<K, V>)
    requires
        total_order::<K>(),
        entries_of(s, m),
        s.len() < 2,
    ensures
        keeps_survivors(m, s, p),
        forall|f: Fold<K, V>| m == #[trigger] merged(s, p, f),
{
    lemma_as_map_of_entries(s, m);
    assert forall|f: Fold<K, V>| m == #[trigger] merged(s, p, f) by {
        if s.len() == 1 {
            assert(merged_prefix(s, p, f, 1) == merged_prefix(s, p, f, 0).insert(s[0].0, s[0].1));
            assert(as_map(s, 1) == as_map(s, 0).insert(s[0].0, s[0].1));
        }
    }
    assert forall|k: K| #[trigger] m.contains_key(k) <==> survivor_key(s, p, k) by {
        if m.contains_key(k) {
            let i = choose|i: int| 0 <= i < s.len() && s[i].0 == k;
            assert(survives(s, p, i) && s[i].0 == k);
        }
        if survivor_key(s, p, k) {
            let i = choose|i: int| 0 <= i < s.len() && survives(s, p, i) && #[trigger] s[i].0 == k;
            assert(m.contains_pair(s[i].0, s[i].1));
        }
    }
    assert forall|j: int| #[trigger] run_ends(s, p, j, j) implies m.contains_pair(
        s[j].0,
        s[j].1,
    ) by {
        assert(m.contains_pair(s[j].0, s[j].1));
    }
}

/// The last unmarked entry at or before an entry is at or before it, and is
/// unmarked where the first entry is.
pub proof fn lemma_rep_bounds(joins: Seq<bool>, i: int)
    requires
        0 <= i < joins.len(),
        !joins[0],
    ensures
        0 <= rep_of(joins, i) <= i,
        !joins[rep_of(joins, i)],
    decreases i,
{
    if i > 0 {
        lemma_rep_bounds(joins, i - 1);
    }
}

/// Which entry is the last unmarked one does not depend on later marks.
pub proof fn lemma_rep_agrees(a: Seq<bool>, b: Seq<bool>, i: int)
    requires
        0 <= i < a.len(),
        i < b.len(),
        forall|x: int| 0 <= x <= i ==> a[x] == b[x],
    ensures
        rep_of(a, i) == rep_of(b, i),
    decreases i,
{
    if i > 0 {
        lemma_rep_agrees(a, b, i - 1);
    }
}

/// The instructions for a prefix do not depend on later marks.
pub proof fn lemma_plan_by_agrees<K, V>(s: Seq<(K, V)>, a: Seq<bool>, b: Seq<bool>, n: int)
    requires
        0 <= n <= a.len(),
        n <= b.len(),
        forall|x: int| 0 <= x < n ==> a[x] == b[x],
    ensures
        plan_by(s, a, n) == plan_by(s, b, n),
    decreases n,
{
    if n > 1 {
        lemma_plan_by_agrees(s, a, b, n - 1);
        lemma_rep_agrees(a, b, n - 1);
    }
}

/// Where the marks are those of a predicate, the last unmarked entry is the
/// representative.
pub proof fn lemma_marks_rep<K, V>(joins: Seq<bool>, s: Seq<(K, V)>, p: Matches<K, V>, i: int)
    requires
        marks(joins, s, p),
        0 <= i < s.len(),
    ensures
        rep_of(joins, i) == leader(s, p, i),
    decreases i,
{
    if i > 0 {
        lemma_marks_rep(joins, s, p, i - 1);
    }
}

/// Where the marks are those of a predicate, the instructions they call for
/// are those of the predicate.
pub proof fn lemma_marks_plan<K, V>(joins: Seq<bool>, s: Seq<(K, V)>, p: Matches<K, V>, n: int)
    requires
        marks(joins, s, p),
        0 <= n <= s.len(),
    ensures
        plan_by(s, joins, n) == plan_prefix(s, p, n),
    decreases n,
{
    if n > 1 {
        lemma_marks_plan(joins, s, p, n - 1);
        lemma_marks_rep(joins, s, p, n - 1);
    }
}

/// Where the marks are those of a predicate, a container that holds the
/// unmarked entries holds the survivors.
pub proof fn lemma_marks_keep_survivors<K, V>(
    after: Map<K, V>,
    joins: Seq<bool>,
    s: Seq<(K, V)>,
    p: Matches<K, V>,
)
    requires
        marks(joins, s, p),
        keeps_unmarked(after, s, joins),
    ensures
        keeps_survivors(after, s, p),
{
    let n = s.len() as int;
    assert forall|k: K| #[trigger] after.contains_key(k) <==> survivor_key(s, p, k) by {
        lemma_unmarked_keys_member(s, joins, n, k);
        if after.contains_key(k) {
            let i = choose|i: int| 0 <= i < n && !joins[i] && #[trigger] s[i].0 == k;
            assert(survives(s, p, i) && s[i].0 == k);
        }
        if survivor_key(s, p, k) {
            let i = choose|i: int| 0 <= i < s.len() && survives(s, p, i) && #[trigger] s[i].0 == k;
            assert(!joins[i] && s[i].0 == k);
        }
    }
    assert forall|j: int| #[trigger] run_ends(s, p, j, j) implies after.contains_pair(
        s[j].0,
        s[j].1,
    ) by {
        assert(!joins[j]);
        if j + 1 < n {
            assert(!joins[j + 1]);
        }
    }
}

/// Every instruction that marks call for folds a marked entry into the last
/// unmarked entry before it.
pub proof fn lemma_plan_by_entry<K, V>(s: Seq<(K, V)>, joins: Seq<bool>, n: int, t: int)
    requires
        0 <= n <= s.len(),
        0 <= t < plan_by(s, joins, n).len(),
    ensures
        exists|i: int|
            0 < i < n && joins[i] && plan_by(s, joins, n)[t] == (
                s[rep_of(joins, i)].0,
                #[trigger] s[i].0,
            ),
    decreases n,
{
    if n > 1 {
        let prev = plan_by(s, joins, n - 1);
        if !joins[n - 1] || t < prev.len() {
            lemma_plan_by_entry(s, joins, n - 1, t);
            let i = choose|i: int|
                0 < i < n - 1 && joins[i] && prev[t] == (s[rep_of(joins, i)].0, #[trigger] s[i].0);
            assert(0 < i < n && joins[i] && plan_by(s, joins, n)[t] == (
                s[rep_of(joins, i)].0,
                s[i].0,
            ));
        } else {
            let i = n - 1;
            assert(0 < i < n && joins[i] && plan_by(s, joins, n)[t] == (
                s[rep_of(joins, i)].0,
                s[i].0,
            ));
        }
    }
}

/// Every marked entry is the source of an instruction.
pub proof fn lemma_plan_by_covers<K, V>(s: Seq<(K, V)>, joins: Seq<bool>, n: int, i: int)
    requires
        0 < i < n <= s.len(),
        joins[i],
    ensures
        exists|t: int|
            0 <= t < plan_by(s, joins, n).len() && #[trigger] plan_by(s, joins, n)[t] == (
                s[rep_of(joins, i)].0,
                s[i].0,
            ),
    decreases n,
{
    let prev = plan_by(s, joins, n - 1);
    let now = plan_by(s, joins, n);
    if i < n - 1 {
        lemma_plan_by_covers(s, joins, n - 1, i);
        let t = choose|t: int|
            0 <= t < prev.len() && #[trigger] prev[t] == (s[rep_of(joins, i)].0, s[i].0);
        assert(now[t] == prev[t]);
    } else {
        assert(now[now.len() - 1] == (s[rep_of(joins, i)].0, s[i].0));
    }
}

/// No marked entry lies between an entry and the last unmarked entry before it.
pub proof fn lemma_rep_run(joins: Seq<bool>, x: int, i: int)
    requires
        0 <= x <= i,
        rep_of(joins, i) < x,
    ensures
        joins[x],
    decreases i,
{
    if x < i {
        lemma_rep_run(joins, x, i - 1);
    }
}

/// A container that lost the sources of the instructions that marks call for,
/// and kept the values of the entries that are no destination, holds the
/// unmarked entries.
pub proof fn lemma_plan_keeps_unmarked<K: Ord, V>(
    m: Map<K, V>,
    after: Map<K, V>,
    s: Seq<(K, V)>,
    joins: Seq<bool>,
)
    requires
        total_order::<K>(),
        entries_of(s, m),
        joins.len() == s.len(),
        s.len() > 0 ==> !joins[0],
        after.dom() == m.dom().difference(
            sources(
                plan_by(s, joins, s.len() as int),
                plan_by(s, joins, s.len() as int).len() as int,
            ),
        ),
        forall|k: K| #[trigger]
            after.contains_key(k) && !names_destination(plan_by(s, joins, s.len() as int), k)
                ==> after[k] == m[k],
    ensures
        keeps_unmarked(after, s, joins),
{
    let n = s.len() as int;
    let plan = plan_by(s, joins, n);
    let gone = sources(plan, plan.len() as int);
    assert forall|k: K| #[trigger] after.contains_key(k) <==> unmarked_keys(s, joins, n).contains(
        k,
    ) by {
        lemma_unmarked_keys_member(s, joins, n, k);
        if after.contains_key(k) {
            assert(m.contains_key(k));
            let i = choose|i: int| 0 <= i < s.len() && s[i].0 == k;
            if joins[i] {
                lemma_plan_by_covers(s, joins, n, i);
                let t = choose|t: int|
                    0 <= t < plan.len() && #[trigger] plan[t] == (s[rep_of(joins, i)].0, s[i].0);
                assert(plan[t].1 == k);
                assert(gone.contains(k));
            }
            assert(0 <= i < n && !joins[i] && s[i].0 == k);
        }
        if unmarked_keys(s, joins, n).contains(k) {
            let i = choose|i: int| 0 <= i < n && !joins[i] && #[trigger] s[i].0 == k;
            assert(m.contains_pair(s[i].0, s[i].1));
            if gone.contains(k) {
                let u = choose|u: int| 0 <= u < plan.len() && #[trigger] plan[u].1 == k;
                lemma_plan_by_entry(s, joins, n, u);
                let x = choose|x: int|
                    0 < x < n && joins[x] && plan[u] == (s[rep_of(joins, x)].0, #[trigger] s[x].0);
                lemma_ascending_distinct(s, x, i);
            }
        }
    }
    assert forall|i: int|
        0 <= i < s.len() && !(#[trigger] joins[i]) && (i + 1 >= s.len()
            || !joins[i + 1]) implies after.contains_pair(s[i].0, s[i].1) by {
        assert(m.contains_pair(s[i].0, s[i].1));
        lemma_unmarked_keys_member(s, joins, n, s[i].0);
        assert(0 <= i < n && !joins[i] && s[i].0 == s[i].0);
        assert(unmarked_keys(s, joins, n).contains(s[i].0));
        assert(after.contains_key(s[i].0));
        if names_destination(plan, s[i].0) {
            let u = choose|u: int| 0 <= u < plan.len() && (#[trigger] plan[u]).0 == s[i].0;
            lemma_plan_by_entry(s, joins, n, u);
            let x = choose|x: int|
                0 < x < n && joins[x] && plan[u] == (s[rep_of(joins, x)].0, #[trigger] s[x].0);
            lemma_rep_bounds(joins, x);
            lemma_ascending_distinct(s, rep_of(joins, x), i);
            assert(rep_of(joins, x) == i && i < x);
            lemma_rep_run(joins, i + 1, x);
        }
        assert(after[s[i].0] == m[s[i].0]);
    }
}

/// The instructions that marks call for can be carried out on the container
/// that the entries come from, and each folds an entry into an earlier one.
pub proof fn lemma_plan_by_fits<K: Ord, V>(m: Map<K, V>, s: Seq<(K, V)>, joins: Seq<bool>)
    requires
        total_order::<K>(),
        entries_of(s, m),
        joins.len() == s.len(),
        s.len() > 0 ==> !joins[0],
    ensures
        plan_fits(plan_by(s, joins, s.len() as int), m.dom()),
        forall|t: int|
            0 <= t < plan_by(s, joins, s.len() as int).len() ==> key_lt(
                (#[trigger] plan_by(s, joins, s.len() as int)[t]).0,
                plan_by(s, joins, s.len() as int)[t].1,
            ),
{
    let n = s.len() as int;
    let plan = plan_by(s, joins, n);
    assert forall|t: int| 0 <= t < plan.len() implies m.dom().contains(#[trigger] plan[t].0)
        && m.dom().contains(plan[t].1) && key_lt(plan[t].0, plan[t].1) by {
        lemma_plan_by_entry(s, joins, n, t);
        let x = choose|x: int|
            0 < x < n && joins[x] && plan[t] == (s[rep_of(joins, x)].0, #[trigger] s[x].0);
        lemma_rep_bounds(joins, x);
        let r = rep_of(joins, x);
        assert(m.contains_pair(s[r].0, s[r].1));
        assert(m.contains_pair(s[x].0, s[x].1));
        assert(key_lt(s[r].0, s[x].0));
    }
    assert forall|t: int, u: int| 0 <= t < plan.len() && 0 <= u < plan.len() implies (
    #[trigger] plan[t]).0 != (#[trigger] plan[u]).1 by {
        lemma_plan_by_entry(s, joins, n, t);
        lemma_plan_by_entry(s, joins, n, u);
        let x = choose|x: int|
            0 < x < n && joins[x] && plan[t] == (s[rep_of(joins, x)].0, #[trigger] s[x].0);
        let y = choose|y: int|
            0 < y < n && joins[y] && plan[u] == (s[rep_of(joins, y)].0, #[trigger] s[y].0);
        lemma_rep_bounds(joins, x);
        if plan[t].0 == plan[u].1 {
            lemma_ascending_distinct(s, rep_of(joins, x), y);
        }
    }
    lemma_plan_by_sources_differ(s, joins, n);
}

/// No two instructions that marks call for have the same source.
proof fn lemma_plan_by_sources_differ<K: Ord, V>(s: Seq<(K, V)>, joins: Seq<bool>, n: int)
    requires
        total_order::<K>(),
        ascending(s),
        0 <= n <= s.len(),
    ensures
        forall|t: int, u: int|
            0 <= t < u < plan_by(s, joins, n).len() ==> (#[trigger] plan_by(s, joins, n)[t]).1 != (
            #[trigger] plan_by(s, joins, n)[u]).1,
    decreases n,
{
    if n > 1 {
        let prev = plan_by(s, joins, n - 1);
        let now = plan_by(s, joins, n);
        lemma_plan_by_sources_differ(s, joins, n - 1);
        assert forall|t: int, u: int| 0 <= t < u < now.len() implies (#[trigger] now[t]).1 != (
        #[trigger] now[u]).1 by {
            if u < prev.len() {
                assert(now[t] == prev[t] && now[u] == prev[u]);
            } else {
                assert(now[t] == prev[t]);
                lemma_plan_by_entry(s, joins, n - 1, t);
                let x = choose|x: int|
                    0 < x < n - 1 && joins[x] && prev[t] == (
                        s[rep_of(joins, x)].0,
                        #[trigger] s[x].0,
                    );
                if now[t].1 == now[u].1 {
                    lemma_ascending_distinct(s, x, n - 1);
                }
            }
        }
    }
}

} // verus!

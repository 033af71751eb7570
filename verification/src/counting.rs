//! What the counts add up to: the per-command run counts of the statistics
//! sum to the total number of runs, and the run counts `prune ignore` reports
//! always total within range.

use vstd::prelude::*;

use crate::config::ignored_by;
use crate::db::{
    active, by_cmd, count_key, count_rows, distinct_keys, lemma_count_key_bounded,
    lemma_count_rows_bounded, select, tally,
};
use crate::entries::Counted;
use crate::laws::lemma_ranked_contains;
use crate::model::{history_wf, CommandView, HistoryView};
use crate::ops::prune_matches;
use crate::present::{counts_fit, sum_counts};
use crate::rank::{limited, rank_order, ranked, Rank};

verus! {

/// The sum of `count_key` over the keys `d`.
pub open spec fn key_count_sum(
    rows: Seq<CommandView>,
    keep: spec_fn(CommandView) -> bool,
    key: spec_fn(CommandView) -> Seq<char>,
    d: Seq<Seq<char>>,
) -> int
    decreases d.len(),
{
    if d.len() == 0 {
        0
    } else {
        key_count_sum(rows, keep, key, d.drop_last()) + count_key(rows, keep, key, d.last())
    }
}

/// No count is negative.
pub open spec fn counts_nonneg(m: Seq<(Seq<char>, i64)>) -> bool {
    forall|i: int| 0 <= i < m.len() ==> 0 <= #[trigger] m[i].1
}

proof fn lemma_distinct_keys_no_duplicates(
    rows: Seq<CommandView>,
    keep: spec_fn(CommandView) -> bool,
    key: spec_fn(CommandView) -> Seq<char>,
)
    ensures
        distinct_keys(rows, keep, key).no_duplicates(),
    decreases rows.len(),
{
    if rows.len() > 0 {
        lemma_distinct_keys_no_duplicates(rows.drop_last(), keep, key);
    }
}

/// A key with a counted row is among the groups.
proof fn lemma_counted_key_is_group(
    rows: Seq<CommandView>,
    keep: spec_fn(CommandView) -> bool,
    key: spec_fn(CommandView) -> Seq<char>,
    k: Seq<char>,
)
    ensures
        count_key(rows, keep, key, k) > 0 ==> distinct_keys(rows, keep, key).contains(k),
    decreases rows.len(),
{
    if rows.len() > 0 {
        let init = rows.drop_last();
        lemma_counted_key_is_group(init, keep, key, k);
        let d0 = distinct_keys(init, keep, key);
        let d = distinct_keys(rows, keep, key);
        if count_key(rows, keep, key, k) > 0 {
            if count_key(init, keep, key, k) > 0 {
                let j = choose|j: int| 0 <= j < d0.len() && d0[j] == k;
                if keep(rows.last()) && !d0.contains(key(rows.last())) {
                    assert(d[j] == k);
                } else {
                    assert(d == d0);
                }
            } else {
                assert(keep(rows.last()) && key(rows.last()) == k);
                if d0.contains(k) {
                    assert(d == d0);
                } else {
                    assert(d == d0.push(k));
                    assert(d[d.len() - 1] == k);
                }
            }
        }
    }
}

/// One more row adds one to the sum over the keys when it is counted under
/// one of them.
proof fn lemma_key_count_sum_push(
    rows: Seq<CommandView>,
    keep: spec_fn(CommandView) -> bool,
    key: spec_fn(CommandView) -> Seq<char>,
    d: Seq<Seq<char>>,
    r: CommandView,
)
    requires
        d.no_duplicates(),
    ensures
        key_count_sum(rows.push(r), keep, key, d) == key_count_sum(rows, keep, key, d) + if keep(r)
            && d.contains(key(r)) {
            1int
        } else {
            0int
        },
    decreases d.len(),
{
    if d.len() > 0 {
        let init = d.drop_last();
        let k = d.last();
        assert(init.no_duplicates()) by {
            assert forall|i: int, j: int|
                0 <= i < init.len() && 0 <= j < init.len() && i != j implies init[i] != init[j] by {
                assert(init[i] == d[i] && init[j] == d[j]);
            }
        }
        lemma_key_count_sum_push(rows, keep, key, init, r);
        assert(rows.push(r).drop_last() =~= rows);
        assert(rows.push(r).last() == r);
        if keep(r) && key(r) == k {
            if init.contains(k) {
                let i = choose|i: int| 0 <= i < init.len() && init[i] == k;
                assert(d[i] == d[d.len() - 1]);
            }
        }
        if keep(r) && d.contains(key(r)) && key(r) != k {
            let i = choose|i: int| 0 <= i < d.len() && d[i] == key(r);
            assert(i != d.len() - 1);
            assert(init[i] == key(r));
        }
        if keep(r) && init.contains(key(r)) {
            let i = choose|i: int| 0 <= i < init.len() && init[i] == key(r);
            assert(d[i] == key(r));
        }
    }
}

/// The groups' counts add up to the number of counted rows.
proof fn lemma_key_count_sum_groups(
    rows: Seq<CommandView>,
    keep: spec_fn(CommandView) -> bool,
    key: spec_fn(CommandView) -> Seq<char>,
)
    ensures
        key_count_sum(rows, keep, key, distinct_keys(rows, keep, key)) == count_rows(rows, keep),
    decreases rows.len(),
{
    if rows.len() > 0 {
        let init = rows.drop_last();
        let r = rows.last();
        let d0 = distinct_keys(init, keep, key);
        let d = distinct_keys(rows, keep, key);
        assert(init.push(r) =~= rows);
        lemma_key_count_sum_groups(init, keep, key);
        lemma_distinct_keys_no_duplicates(init, keep, key);
        lemma_key_count_sum_push(init, keep, key, d0, r);
        if keep(r) && !d0.contains(key(r)) {
            let k = key(r);
            assert(d == d0.push(k));
            assert(d.drop_last() =~= d0);
            lemma_counted_key_is_group(init, keep, key, k);
            lemma_count_key_bounded(init, keep, key, k);
            assert(count_key(init, keep, key, k) == 0);
            assert(count_key(rows, keep, key, k) == count_key(init, keep, key, k) + 1);
        }
    }
}

/// A `GROUP BY` tally sums to its rows.
proof fn lemma_tally_sum_keys(
    rows: Seq<CommandView>,
    keep: spec_fn(CommandView) -> bool,
    key: spec_fn(CommandView) -> Seq<char>,
    d: Seq<Seq<char>>,
)
    requires
        rows.len() <= i64::MAX,
    ensures
        sum_counts(d.map_values(|k: Seq<char>| (k, count_key(rows, keep, key, k) as i64)))
            == key_count_sum(rows, keep, key, d),
        counts_nonneg(d.map_values(|k: Seq<char>| (k, count_key(rows, keep, key, k) as i64))),
    decreases d.len(),
{
    let f = |k: Seq<char>| (k, count_key(rows, keep, key, k) as i64);
    let m = d.map_values(f);
    assert forall|i: int| 0 <= i < m.len() implies 0 <= #[trigger] m[i].1 by {
        lemma_count_key_bounded(rows, keep, key, d[i]);
    }
    if d.len() > 0 {
        lemma_tally_sum_keys(rows, keep, key, d.drop_last());
        assert(m.drop_last() =~= d.drop_last().map_values(f));
        lemma_count_key_bounded(rows, keep, key, d.last());
        assert(m.last().1 == count_key(rows, keep, key, d.last()));
    }
}

/// Taking an element out of a sequence takes its count out of the sum.
proof fn lemma_sum_counts_remove(s: Seq<(Seq<char>, i64)>, i: int)
    requires
        0 <= i < s.len(),
    ensures
        sum_counts(s) == sum_counts(s.remove(i)) + s[i].1,
    decreases s.len(),
{
    if i == s.len() - 1 {
        assert(s.remove(i) =~= s.drop_last());
    } else {
        let t = s.remove(i);
        lemma_sum_counts_remove(s.drop_last(), i);
        assert(t.drop_last() =~= s.drop_last().remove(i));
        assert(t.last() == s.last());
    }
}

/// Reordering keeps the sum.
proof fn lemma_sum_counts_permutation(s: Seq<(Seq<char>, i64)>, t: Seq<(Seq<char>, i64)>)
    requires
        s.to_multiset() == t.to_multiset(),
    ensures
        sum_counts(s) == sum_counts(t),
    decreases s.len(),
{
    broadcast use vstd::seq_lib::group_to_multiset_ensures;
    broadcast use vstd::multiset::group_multiset_axioms;

    if s.len() == 0 {
        assert(t.to_multiset().len() == 0);
        assert(t.len() == 0);
    } else {
        let x = s.last();
        let s0 = s.drop_last();
        assert(s0.push(x) =~= s);
        assert(s.to_multiset() == s0.to_multiset().insert(x));
        assert(s.to_multiset().count(x) > 0);
        assert(t.contains(x));
        let i = choose|i: int| 0 <= i < t.len() && t[i] == x;
        let t0 = t.remove(i);
        assert(t0.to_multiset() == t.to_multiset().remove(x));
        assert(s0.to_multiset() =~= s.to_multiset().remove(x));
        lemma_sum_counts_permutation(s0, t0);
        lemma_sum_counts_remove(t, i);
    }
}

/// Nonnegative counts: a prefix totals no more than the whole.
proof fn lemma_sum_counts_take(m: Seq<(Seq<char>, i64)>, k: int)
    requires
        counts_nonneg(m),
        0 <= k <= m.len(),
    ensures
        0 <= sum_counts(m.take(k)) <= sum_counts(m),
    decreases m.len(),
{
    if k == m.len() {
        assert(m.take(k) =~= m);
        lemma_sum_counts_nonneg(m);
    } else {
        let init = m.drop_last();
        assert(counts_nonneg(init)) by {
            assert forall|i: int| 0 <= i < init.len() implies 0 <= #[trigger] init[i].1 by {
                assert(init[i] == m[i]);
            }
        }
        lemma_sum_counts_take(init, k);
        assert(init.take(k) =~= m.take(k));
        assert(0 <= m[m.len() - 1].1);
    }
}

proof fn lemma_sum_counts_nonneg(m: Seq<(Seq<char>, i64)>)
    requires
        counts_nonneg(m),
    ensures
        0 <= sum_counts(m),
    decreases m.len(),
{
    if m.len() > 0 {
        let init = m.drop_last();
        assert(counts_nonneg(init)) by {
            assert forall|i: int| 0 <= i < init.len() implies 0 <= #[trigger] init[i].1 by {
                assert(init[i] == m[i]);
            }
        }
        lemma_sum_counts_nonneg(init);
        assert(0 <= m[m.len() - 1].1);
    }
}

/// Nonnegative counts: the kept elements total no more than all of them.
proof fn lemma_sum_counts_select(m: Seq<(Seq<char>, i64)>, p: spec_fn((Seq<char>, i64)) -> bool)
    requires
        counts_nonneg(m),
    ensures
        counts_nonneg(select(m, p)),
        sum_counts(select(m, p)) <= sum_counts(m),
    decreases m.len(),
{
    if m.len() > 0 {
        let init = m.drop_last();
        assert(counts_nonneg(init)) by {
            assert forall|i: int| 0 <= i < init.len() implies 0 <= #[trigger] init[i].1 by {
                assert(init[i] == m[i]);
            }
        }
        lemma_sum_counts_select(init, p);
        assert(0 <= m[m.len() - 1].1);
        let sel = select(m, p);
        if p(m.last()) {
            assert(sel == select(init, p).push(m.last()));
            assert(sel.drop_last() =~= select(init, p));
            assert forall|i: int| 0 <= i < sel.len() implies 0 <= #[trigger] sel[i].1 by {
                if i < sel.len() - 1 {
                    assert(sel[i] == select(init, p)[i]);
                }
            }
        }
    }
}

/// Statistics: the most-run ranking, unlimited, sums to the total runs; every
/// run of an active command is counted under exactly one command.
pub proof fn law_top_commands_sum_to_total_runs(h: HistoryView)
    requires
        history_wf(h),
    ensures
        sum_counts(limited(ranked::<Counted>(tally(h.commands, active(h), by_cmd())), -1i64))
            == count_rows(h.commands, active(h)),
{
    let t = tally(h.commands, active(h), by_cmd());
    let d = distinct_keys(h.commands, active(h), by_cmd());
    lemma_tally_sum_keys(h.commands, active(h), by_cmd(), d);
    lemma_key_count_sum_groups(h.commands, active(h), by_cmd());
    Counted::lemma_rank_total();
    t.lemma_sort_by_ensures(rank_order::<Counted>());
    lemma_sum_counts_permutation(ranked::<Counted>(t), t);
}

/// `prune ignore` reports run counts whose every running total is an `i64`:
/// what `prune_ignored` returns always meets `prune_report`'s requirement.
pub proof fn law_prune_matches_fit(h: HistoryView, ignore: Seq<Seq<char>>)
    requires
        history_wf(h),
    ensures
        counts_fit(prune_matches(h, ignore)),
{
    let t = tally(h.commands, active(h), by_cmd());
    let d = distinct_keys(h.commands, active(h), by_cmd());
    let r = ranked::<Counted>(t);
    let p = |e: (Seq<char>, i64)| ignored_by(ignore, e.0);
    let m = prune_matches(h, ignore);
    lemma_tally_sum_keys(h.commands, active(h), by_cmd(), d);
    lemma_key_count_sum_groups(h.commands, active(h), by_cmd());
    lemma_count_rows_bounded(h.commands, active(h));
    Counted::lemma_rank_total();
    t.lemma_sort_by_ensures(rank_order::<Counted>());
    lemma_sum_counts_permutation(r, t);
    assert(counts_nonneg(r)) by {
        assert forall|i: int| 0 <= i < r.len() implies 0 <= #[trigger] r[i].1 by {
            lemma_ranked_contains::<Counted>(t, r[i]);
            assert(r.contains(r[i]));
            let j = choose|j: int| 0 <= j < t.len() && t[j] == r[i];
            assert(0 <= t[j].1);
        }
    }
    lemma_sum_counts_select(r, p);
    assert forall|k: int| 0 <= k <= m.len() implies i64::MIN <= #[trigger] sum_counts(m.take(k))
        <= i64::MAX by {
        lemma_sum_counts_take(m, k);
    }
}

} // verus!

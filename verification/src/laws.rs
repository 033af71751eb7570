//! What holds across the operations: what a read gives back after a write,
//! what a soft delete hides and keeps, what a restore or a second toggle undoes,
//! and what recording a command adds.

use vstd::prelude::*;

use crate::config::ignored_by;
use crate::db::{
    active, active_failed, by_cmd, by_session, deleted_cmd, distinct_keys, error_entries,
    fav_rows_spec, favorite_cmd, in_context, in_session, list_rows_spec, listed, live_favorites,
    newest_cmds, note_of, search_order, search_spec, select, session_usages, tally, timeline_spec,
};
use crate::entries::{Counted, ErrorEntry, FavEntry, SessionUsage};
use crate::keyed::{
    has_key, inserted_if_absent, key_pos, lemma_inserted_if_absent, lemma_removed, lemma_upserted,
    lookup, removed, upserted,
};
use crate::like::{escaped, lemma_escaped_prefix_like, like_prefix, sql_like};
use crate::model::{
    apply_change, apply_changes, can_append, history_wf, lemma_apply_changes_wf, next_id,
    ChangeView, CommandView, HistoryView,
};
use crate::ops::{
    end_changes, fav_add_changes, fav_toggle_spec, import_change, import_changes, note_set_changes, prune_apply_changes, prune_changes,
    prune_matches, restore_changes, soft_delete_changes, start_changes,
};
use crate::rank::{limited, ranked, rank_order, Rank};
use crate::text::{lemma_trimmed_idempotent, trimmed};
use crate::zsh::zsh_commands;

verus! {

// ---------------------------------------------------------------------------
// Lemmas on the query vocabulary
// ---------------------------------------------------------------------------

/// A command is among the newest-first distinct commands exactly when some
/// accepted row has it.
pub proof fn lemma_newest_cmds_contains(
    rows: Seq<CommandView>,
    keep: spec_fn(CommandView) -> bool,
    c: Seq<char>,
)
    ensures
        newest_cmds(rows, keep).contains(c) <==> exists|i: int|
            0 <= i < rows.len() && keep(#[trigger] rows[i]) && rows[i].cmd == c,
    decreases rows.len(),
{
    if rows.len() > 0 {
        let t = rows.drop_first();
        let later = newest_cmds(t, keep);
        let x = rows[0].cmd;
        lemma_newest_cmds_contains(t, keep, c);
        if exists|i: int| 0 <= i < t.len() && keep(#[trigger] t[i]) && t[i].cmd == c {
            let i = choose|i: int| 0 <= i < t.len() && keep(#[trigger] t[i]) && t[i].cmd == c;
            assert(rows[i + 1] == t[i]);
        }
        if exists|i: int| 0 <= i < rows.len() && keep(#[trigger] rows[i]) && rows[i].cmd == c {
            let i = choose|i: int| 0 <= i < rows.len() && keep(#[trigger] rows[i]) && rows[i].cmd == c;
            if i > 0 {
                assert(t[i - 1] == rows[i]);
            }
        }
        if keep(rows[0]) && !later.contains(x) {
            let n = later.push(x);
            assert(newest_cmds(rows, keep) == n);
            if n.contains(c) {
                let j = choose|j: int| 0 <= j < n.len() && n[j] == c;
                if j < later.len() {
                    assert(later[j] == c);
                    assert(later.contains(c));
                } else {
                    assert(c == x);
                }
            }
            if later.contains(c) {
                let j = choose|j: int| 0 <= j < later.len() && later[j] == c;
                assert(n[j] == c);
            }
            if c == x {
                assert(n[later.len() as int] == c);
            }
        } else {
            assert(newest_cmds(rows, keep) == later);
            if keep(rows[0]) && x == c {
                assert(later.contains(c));
            }
        }
    }
}

/// The newest-first distinct commands hold no command twice.
pub proof fn lemma_newest_cmds_distinct(rows: Seq<CommandView>, keep: spec_fn(CommandView) -> bool)
    ensures
        newest_cmds(rows, keep).no_duplicates(),
    decreases rows.len(),
{
    if rows.len() > 0 {
        lemma_newest_cmds_distinct(rows.drop_first(), keep);
    }
}

/// The newest accepted row's command comes first.
pub proof fn lemma_newest_cmds_push(
    rows: Seq<CommandView>,
    keep: spec_fn(CommandView) -> bool,
    r: CommandView,
)
    requires
        keep(r),
    ensures
        newest_cmds(rows.push(r), keep).len() > 0,
        newest_cmds(rows.push(r), keep)[0] == r.cmd,
    decreases rows.len(),
{
    if rows.len() == 0 {
        let e = Seq::<CommandView>::empty();
        assert(rows.push(r).drop_first() =~= e);
        assert(newest_cmds(e, keep) == Seq::<Seq<char>>::empty());
        assert(rows.push(r)[0] == r);
        assert(newest_cmds(rows.push(r), keep) =~= seq![r.cmd]);
    } else {
        assert(rows.push(r).drop_first() =~= rows.drop_first().push(r));
        assert(rows.push(r)[0] == rows[0]);
        lemma_newest_cmds_push(rows.drop_first(), keep, r);
        let later = newest_cmds(rows.drop_first().push(r), keep);
        assert(newest_cmds(rows.push(r).drop_first(), keep) == later);
        let x = rows[0].cmd;
        if keep(rows[0]) && !later.contains(x) {
            assert(newest_cmds(rows.push(r), keep) == later.push(x));
            assert(later.push(x)[0] == later[0]);
        } else {
            assert(newest_cmds(rows.push(r), keep) == later);
        }
    }
}

pub proof fn lemma_select_contains<A>(s: Seq<A>, p: spec_fn(A) -> bool, x: A)
    ensures
        select(s, p).contains(x) ==> s.contains(x) && p(x),
    decreases s.len(),
{
    if s.len() > 0 {
        lemma_select_contains(s.drop_last(), p, x);
        if select(s, p).contains(x) && select(s.drop_last(), p).contains(x) {
            let i = choose|i: int| 0 <= i < s.drop_last().len() && s.drop_last()[i] == x;
            assert(s[i] == x);
        }
        if select(s, p).contains(x) && !select(s.drop_last(), p).contains(x) {
            assert(p(s.last()));
            assert(select(s, p) =~= select(s.drop_last(), p).push(s.last()));
            let i = choose|i: int| 0 <= i < select(s, p).len() && select(s, p)[i] == x;
            assert(x == s.last());
            assert(s[s.len() - 1] == x);
        }
    }
}

pub proof fn lemma_apply_changes_append(h: HistoryView, a: Seq<ChangeView>, b: Seq<ChangeView>)
    ensures
        apply_changes(h, a + b) == apply_changes(apply_changes(h, a), b),
    decreases a.len(),
{
    if a.len() > 0 {
        assert((a + b).drop_first() =~= a.drop_first() + b);
        assert((a + b)[0] == a[0]);
        lemma_apply_changes_append(apply_change(h, a[0]), a.drop_first(), b);
    } else {
        assert(a + b =~= b);
    }
}

proof fn lemma_apply_one(h: HistoryView, c: ChangeView)
    ensures
        apply_changes(h, seq![c]) == apply_change(h, c),
{
    let e = Seq::<ChangeView>::empty();
    assert(seq![c].drop_first() =~= e);
    assert(seq![c][0] == c);
    assert(apply_changes(apply_change(h, c), e) == apply_change(h, c));
}

proof fn lemma_apply_two(h: HistoryView, c: ChangeView, d: ChangeView)
    ensures
        apply_changes(h, seq![c, d]) == apply_change(apply_change(h, c), d),
{
    assert(seq![c, d].drop_first() =~= seq![d]);
    lemma_apply_one(apply_change(h, c), d);
}

// ---------------------------------------------------------------------------
// Laws
// ---------------------------------------------------------------------------

/// Notes: after `note_set(cmd, note)`, `note_get(cmd)` gives back the note, or
/// the empty text when the note was blank (a blank note clears it); every
/// other command's note is unchanged.
pub proof fn law_note_set_then_get(h: HistoryView, cmd: Seq<char>, note: Seq<char>)
    requires
        history_wf(h),
        trimmed(cmd).len() > 0,
    ensures
        note_of(apply_changes(h, note_set_changes(cmd, note)), trimmed(cmd)) == (if trimmed(
            note,
        ).len() == 0 {
            Seq::<char>::empty()
        } else {
            note
        }),
        forall|other: Seq<char>|
            other != trimmed(cmd) ==> #[trigger] note_of(
                apply_changes(h, note_set_changes(cmd, note)),
                other,
            ) == note_of(h, other),
{
    let c = trimmed(cmd);
    if trimmed(note).len() == 0 {
        lemma_apply_one(h, ChangeView::DeleteNote { cmd: c });
        lemma_removed(h.notes, c);
    } else {
        lemma_apply_one(h, ChangeView::UpsertNote { cmd: c, note });
        lemma_upserted(h.notes, c, note);
    }
}

/// Favorites: `fav_toggle` returns the new state, which is the opposite of the
/// old one; no other command's favorite state changes.
pub proof fn law_fav_toggle_flips(h: HistoryView, cmd: Seq<char>, now: i64)
    requires
        history_wf(h),
        trimmed(cmd).len() > 0,
    ensures
        fav_toggle_spec(h, cmd, now).0 == !favorite_cmd(h, trimmed(cmd)),
        favorite_cmd(apply_changes(h, fav_toggle_spec(h, cmd, now).1), trimmed(cmd))
            == fav_toggle_spec(h, cmd, now).0,
        forall|other: Seq<char>|
            other != trimmed(cmd) ==> #[trigger] favorite_cmd(
                apply_changes(h, fav_toggle_spec(h, cmd, now).1),
                other,
            ) == favorite_cmd(h, other),
{
    let c = trimmed(cmd);
    lemma_trimmed_idempotent(cmd);
    if favorite_cmd(h, c) {
        lemma_apply_one(h, ChangeView::DeleteFavorite { cmd: c });
        lemma_removed(h.favorites, c);
        assert forall|other: Seq<char>| other != c implies #[trigger] favorite_cmd(
            apply_changes(h, fav_toggle_spec(h, cmd, now).1),
            other,
        ) == favorite_cmd(h, other) by {
            assert(lookup(removed(h.favorites, c), other) == lookup(h.favorites, other));
        }
    } else {
        lemma_apply_one(h, ChangeView::InsertFavoriteOrIgnore { cmd: c, created_ts: now });
        lemma_inserted_if_absent(h.favorites, c, now);
        assert forall|other: Seq<char>| other != c implies #[trigger] favorite_cmd(
            apply_changes(h, fav_toggle_spec(h, cmd, now).1),
            other,
        ) == favorite_cmd(h, other) by {
            assert(lookup(inserted_if_absent(h.favorites, c, now), other) == lookup(
                h.favorites,
                other,
            ));
        }
    }
}

/// Favorites: toggling twice gives every command back its favorite state.
pub proof fn law_fav_toggle_twice(h: HistoryView, cmd: Seq<char>, t1: i64, t2: i64)
    requires
        history_wf(h),
    ensures
        ({
            let h1 = apply_changes(h, fav_toggle_spec(h, cmd, t1).1);
            let h2 = apply_changes(h1, fav_toggle_spec(h1, cmd, t2).1);
            forall|k: Seq<char>| #[trigger] favorite_cmd(h2, k) == favorite_cmd(h, k)
        }),
{
    let h1 = apply_changes(h, fav_toggle_spec(h, cmd, t1).1);
    if trimmed(cmd).len() > 0 {
        law_fav_toggle_flips(h, cmd, t1);
        crate::model::lemma_apply_changes_wf(h, fav_toggle_spec(h, cmd, t1).1);
        law_fav_toggle_flips(h1, cmd, t2);
    } else {
        assert(fav_toggle_spec(h, cmd, t1).1 =~= Seq::<ChangeView>::empty());
        assert(h1 == h);
    }
}

/// Soft delete hides the command and destroys nothing: it is then deleted, so
/// no view shows it (the listing with any filters and the search included) and
/// `inspect` treats it as unknown; and the commands, favorites, notes, pending
/// and sessions tables are unchanged.
pub proof fn law_soft_delete_hides(h: HistoryView, cmd: Seq<char>, now: i64)
    requires
        history_wf(h),
        trimmed(cmd).len() > 0,
    ensures
        ({
            let c = trimmed(cmd);
            let h2 = apply_changes(h, soft_delete_changes(cmd, now));
            &&& deleted_cmd(h2, c)
            &&& h2.commands == h.commands
            &&& h2.favorites == h.favorites
            &&& h2.notes == h.notes
            &&& h2.pending == h.pending
            &&& h2.sessions == h.sessions
            &&& forall|cwd: Option<Seq<char>>, exit: Option<i64>, limit: Option<i64>, i: int|
                0 <= i < list_rows_spec(h2, cwd, exit, limit).len() ==> (#[trigger] list_rows_spec(
                    h2,
                    cwd,
                    exit,
                    limit,
                )[i]).0 != c
            &&& forall|dir: Seq<char>, prefix: Seq<char>, offset: i64|
                #[trigger] search_spec(h2, dir, prefix, offset) != Some(c)
        }),
{
    let c = trimmed(cmd);
    let h2 = apply_changes(h, soft_delete_changes(cmd, now));
    lemma_apply_one(h, ChangeView::ReplaceDeleted { cmd: c, deleted_ts: now });
    lemma_upserted(h.deleted, c, now);
    assert(deleted_cmd(h2, c));
    law_deleted_commands_hidden(h2, c);
}

/// Restore undoes a soft delete: deleting a command that was not deleted and
/// then restoring it gives back exactly the same database.
pub proof fn law_restore_undoes_soft_delete(h: HistoryView, cmd: Seq<char>, now: i64)
    requires
        history_wf(h),
        !deleted_cmd(h, trimmed(cmd)),
    ensures
        apply_changes(apply_changes(h, soft_delete_changes(cmd, now)), restore_changes(cmd)) == h,
{
    let c = trimmed(cmd);
    let h1 = apply_changes(h, soft_delete_changes(cmd, now));
    lemma_apply_one(h1, ChangeView::DeleteDeleted { cmd: c });
    if c.len() > 0 {
        lemma_apply_one(h, ChangeView::ReplaceDeleted { cmd: c, deleted_ts: now });
        let d = h.deleted.push((c, now));
        assert(upserted(h.deleted, c, now) == d);
        lemma_upserted(h.deleted, c, now);
        crate::keyed::lemma_key_pos_unique(d, c, h.deleted.len() as int);
        assert(removed(d, c) =~= h.deleted);
    } else {
        assert(soft_delete_changes(cmd, now) =~= Seq::<ChangeView>::empty());
        assert(removed(h.deleted, c) == h.deleted);
    }
    assert(apply_changes(h1, restore_changes(cmd)) =~= h);
}

/// Recording: a command started (non-blank, not ignored) and then ended in the
/// same session is appended to the commands table exactly once, trimmed, with
/// its directory, exit code, start and end times and session; the session has
/// nothing pending afterwards; and, unless it is soft-deleted, it heads the
/// newest-first listing.
pub proof fn law_start_then_end_records(
    h: HistoryView,
    session: Seq<char>,
    cwd: Seq<char>,
    cmd: Seq<char>,
    ignore: Seq<Seq<char>>,
    exit_code: i64,
    t1: i64,
    t2: i64,
)
    requires
        history_wf(h),
        trimmed(cmd).len() > 0,
        !ignored_by(ignore, trimmed(cmd)),
        can_append(h),
    ensures
        ({
            let h1 = apply_changes(h, start_changes(session, cwd, cmd, ignore, t1));
            let h2 = apply_changes(h1, end_changes(h1, session, exit_code, t2));
            let row = CommandView {
                id: next_id(h.commands) as i64,
                cmd: trimmed(cmd),
                cwd,
                exit_code: Some(exit_code),
                start_ts: t1,
                end_ts: Some(t2),
                session,
            };
            &&& h2.commands == h.commands.push(row)
            &&& lookup(h2.pending, session) is None
            &&& !deleted_cmd(h, trimmed(cmd)) ==> list_rows_spec(h2, None, None, None)[0].0
                == trimmed(cmd)
        }),
{
    let c = trimmed(cmd);
    let s1 = ChangeView::InsertSessionOrIgnore { session, started_ts: t1, init_cwd: cwd };
    let s2 = ChangeView::UpsertPending { session, cmd: c, cwd, start_ts: t1 };
    lemma_apply_two(h, s1, s2);
    let ha = apply_change(h, s1);
    let h1 = apply_change(ha, s2);
    lemma_inserted_if_absent(h.sessions, session, (t1, cwd));
    lemma_upserted(ha.pending, session, (c, cwd, t1));
    assert(lookup(h1.pending, session) == Some((c, cwd, t1)));
    let e1 = ChangeView::InsertCommand {
        cmd: c,
        cwd,
        exit_code: Some(exit_code),
        start_ts: t1,
        end_ts: Some(t2),
        session,
    };
    let e2 = ChangeView::DeletePending { session };
    assert(end_changes(h1, session, exit_code, t2) == seq![e1, e2]);
    lemma_apply_two(h1, e1, e2);
    let hb = apply_change(h1, e1);
    let h2 = apply_change(hb, e2);
    lemma_removed(hb.pending, session);
    let row = CommandView {
        id: next_id(h.commands) as i64,
        cmd: c,
        cwd,
        exit_code: Some(exit_code),
        start_ts: t1,
        end_ts: Some(t2),
        session,
    };
    assert(h2.commands == h.commands.push(row));
    if !deleted_cmd(h, c) {
        assert(h2.deleted == h.deleted);
        lemma_newest_cmds_push(h.commands, listed(h2, None, None), row);
    }
}

/// Ignored or blank commands are not recorded: `start` issues no change.
pub proof fn law_ignored_not_recorded(
    session: Seq<char>,
    cwd: Seq<char>,
    cmd: Seq<char>,
    ignore: Seq<Seq<char>>,
    now: i64,
)
    requires
        trimmed(cmd).len() == 0 || ignored_by(ignore, trimmed(cmd)),
    ensures
        start_changes(session, cwd, cmd, ignore, now) == Seq::<ChangeView>::empty(),
{
}

/// The command is not soft-deleted and has a run that passes the listing's
/// filters.
pub open spec fn has_listed_run(
    h: HistoryView,
    cwd: Option<Seq<char>>,
    exit: Option<i64>,
    c: Seq<char>,
) -> bool {
    !deleted_cmd(h, c) && exists|k: int|
        0 <= k < h.commands.len() && (listed(h, cwd, exit))(#[trigger] h.commands[k])
            && h.commands[k].cmd == c
}

/// The listing never shows a command twice, and shows only commands that have
/// a run passing its filters and are not soft-deleted.
pub proof fn law_list_distinct(
    h: HistoryView,
    cwd: Option<Seq<char>>,
    exit: Option<i64>,
    limit: Option<i64>,
)
    ensures
        forall|i: int, j: int|
            0 <= i < j < list_rows_spec(h, cwd, exit, limit).len() ==> (#[trigger] list_rows_spec(
                h,
                cwd,
                exit,
                limit,
            )[i]).0 != (#[trigger] list_rows_spec(h, cwd, exit, limit)[j]).0,
        forall|i: int|
            0 <= i < list_rows_spec(h, cwd, exit, limit).len() ==> has_listed_run(
                h,
                cwd,
                exit,
                (#[trigger] list_rows_spec(h, cwd, exit, limit)[i]).0,
            ),
{
    let all = newest_cmds(h.commands, listed(h, cwd, exit));
    lemma_newest_cmds_distinct(h.commands, listed(h, cwd, exit));
    let shown = match limit {
        Some(l) => limited(all, l),
        None => all,
    };
    assert forall|i: int| 0 <= i < shown.len() implies shown[i] == all[i] by {}
    assert forall|i: int|
        0 <= i < list_rows_spec(h, cwd, exit, limit).len() implies has_listed_run(
        h,
        cwd,
        exit,
        (#[trigger] list_rows_spec(h, cwd, exit, limit)[i]).0,
    ) by {
        assert(list_rows_spec(h, cwd, exit, limit)[i].0 == all[i]);
        assert(all.contains(all[i]));
        lemma_newest_cmds_contains(h.commands, listed(h, cwd, exit), all[i]);
        let k = choose|k: int|
            0 <= k < h.commands.len() && (listed(h, cwd, exit))(#[trigger] h.commands[k])
                && h.commands[k].cmd == all[i];
        assert(!deleted_cmd(h, h.commands[k].cmd));
    }
}

/// Search returns only commands that start with the typed prefix (ASCII
/// letters regardless of case) and are not soft-deleted.
pub proof fn law_search_matches_prefix(h: HistoryView, cwd: Seq<char>, prefix: Seq<char>, offset: i64)
    ensures
        search_spec(h, cwd, prefix, offset) matches Some(c) ==> like_prefix(prefix, c)
            && !deleted_cmd(h, c),
{
    if search_spec(h, cwd, prefix, offset) is Some {
        let c = search_spec(h, cwd, prefix, offset)->0;
        let order = search_order(h, cwd, prefix);
        let keep = crate::db::prefix_match(h, prefix);
        let cands = newest_cmds(h.commands, keep);
        let k = if offset < 0 {
            0
        } else {
            offset as int
        };
        assert(order[k] == c);
        let near = select(cands, |x: Seq<char>| crate::db::ran_in(h.commands, x, cwd));
        let far = select(cands, |x: Seq<char>| !crate::db::ran_in(h.commands, x, cwd));
        if k < near.len() {
            assert(near[k] == c);
            assert(near.contains(c));
            lemma_select_contains(cands, |x: Seq<char>| crate::db::ran_in(h.commands, x, cwd), c);
        } else {
            assert(far[k - near.len()] == c);
            assert(far.contains(c));
            lemma_select_contains(cands, |x: Seq<char>| !crate::db::ran_in(h.commands, x, cwd), c);
        }
        lemma_newest_cmds_contains(h.commands, keep, c);
        let i = choose|i: int| 0 <= i < h.commands.len() && keep(#[trigger] h.commands[i])
            && h.commands[i].cmd == c;
        lemma_escaped_prefix_like(prefix, c);
    }
}

/// The totals count as many distinct commands as the full most-run ranking
/// lists.
pub proof fn law_distinct_commands_counted(h: HistoryView)
    ensures
        distinct_keys(h.commands, active(h), by_cmd()).len() == limited(
            ranked::<Counted>(tally(h.commands, active(h), by_cmd())),
            -1i64,
        ).len(),
{
    let t = tally(h.commands, active(h), by_cmd());
    Counted::lemma_rank_total();
    t.lemma_sort_by_ensures(rank_order::<Counted>());
    broadcast use vstd::seq_lib::group_to_multiset_ensures;

    assert(t.to_multiset().len() == ranked::<Counted>(t).to_multiset().len());
}

/// Some row that `keep` accepts has key `k`.
pub open spec fn kept_with_key<K>(
    rows: Seq<CommandView>,
    keep: spec_fn(CommandView) -> bool,
    key: spec_fn(CommandView) -> K,
    k: K,
) -> bool {
    exists|i: int| 0 <= i < rows.len() && #[trigger] keep(rows[i]) && key(rows[i]) == k
}

/// Every group of a `GROUP BY` comes from some accepted row.
pub proof fn lemma_distinct_keys_contains<K>(
    rows: Seq<CommandView>,
    keep: spec_fn(CommandView) -> bool,
    key: spec_fn(CommandView) -> K,
    k: K,
)
    ensures
        distinct_keys(rows, keep, key).contains(k) ==> kept_with_key(rows, keep, key, k),
    decreases rows.len(),
{
    if rows.len() > 0 {
        let init = rows.drop_last();
        let d0 = distinct_keys(init, keep, key);
        let d = distinct_keys(rows, keep, key);
        lemma_distinct_keys_contains(init, keep, key, k);
        if d.contains(k) {
            if d0.contains(k) {
                let i = choose|i: int| 0 <= i < init.len() && #[trigger] keep(init[i]) && key(init[i]) == k;
                assert(rows[i] == init[i]);
                assert(keep(rows[i]) && key(rows[i]) == k);
            } else {
                assert(keep(rows.last()) && !d0.contains(key(rows.last())));
                assert(d =~= d0.push(key(rows.last())));
                let j = choose|j: int| 0 <= j < d.len() && d[j] == k;
                if j < d0.len() {
                    assert(d0[j] == k);
                    assert(d0.contains(k));
                }
                assert(k == key(rows.last()));
                assert(rows[rows.len() - 1] == rows.last());
                assert(keep(rows[rows.len() - 1]) && key(rows[rows.len() - 1]) == k);
            }
        }
    }
}

/// Ranking keeps the elements and the length.
pub proof fn lemma_ranked_contains<T: Rank>(s: Seq<T::V>, x: T::V)
    ensures
        ranked::<T>(s).contains(x) <==> s.contains(x),
        ranked::<T>(s).len() == s.len(),
{
    T::lemma_rank_total();
    s.lemma_sort_by_ensures(rank_order::<T>());
    broadcast use vstd::seq_lib::group_to_multiset_ensures;

    assert(s.to_multiset().len() == ranked::<T>(s).to_multiset().len());
    assert(s.contains(x) ==> s.to_multiset().count(x) > 0);
    assert(s.to_multiset().count(x) == ranked::<T>(s).to_multiset().count(x));
}

/// A soft-deleted command shows in no view: not in the listing (with any
/// filters and limit), the search, the favorites view, the most-run and
/// error-prone rankings, any session's timeline, nor its own usage context.
pub proof fn law_deleted_commands_hidden(h: HistoryView, c: Seq<char>)
    requires
        deleted_cmd(h, c),
    ensures
        forall|cwd: Option<Seq<char>>, exit: Option<i64>, limit: Option<i64>, i: int|
            0 <= i < list_rows_spec(h, cwd, exit, limit).len() ==> (#[trigger] list_rows_spec(
                h,
                cwd,
                exit,
                limit,
            )[i]).0 != c,
        forall|dir: Seq<char>, prefix: Seq<char>, offset: i64|
            #[trigger] search_spec(h, dir, prefix, offset) != Some(c),
        forall|i: int| 0 <= i < fav_rows_spec(h).len() ==> (#[trigger] fav_rows_spec(h)[i]).0 != c,
        forall|limit: i64, i: int|
            0 <= i < limited(ranked::<Counted>(tally(h.commands, active(h), by_cmd())), limit).len()
                ==> (#[trigger] limited(
                ranked::<Counted>(tally(h.commands, active(h), by_cmd())),
                limit,
            )[i]).0 != c,
        forall|limit: i64, i: int|
            0 <= i < limited(ranked::<ErrorEntry>(error_entries(h)), limit).len() ==> (
            #[trigger] limited(ranked::<ErrorEntry>(error_entries(h)), limit)[i]).0 != c,
        forall|s: Seq<char>, i: int|
            0 <= i < timeline_spec(h, s).len() ==> (#[trigger] timeline_spec(h, s)[i]).0 != c,
        forall|home: Option<Seq<char>>|
            #[trigger] ranked::<SessionUsage>(session_usages(h, c, home)).len() == 0,
{
    assert forall|cwd: Option<Seq<char>>, exit: Option<i64>, limit: Option<i64>, i: int|
        0 <= i < list_rows_spec(h, cwd, exit, limit).len() implies (#[trigger] list_rows_spec(
        h,
        cwd,
        exit,
        limit,
    )[i]).0 != c by {
        let all = newest_cmds(h.commands, listed(h, cwd, exit));
        let shown = match limit {
            Some(l) => limited(all, l),
            None => all,
        };
        assert(list_rows_spec(h, cwd, exit, limit)[i].0 == shown[i]);
        assert(all.contains(shown[i])) by {
            assert(shown[i] == all[i]);
        }
        lemma_newest_cmds_contains(h.commands, listed(h, cwd, exit), shown[i]);
    }
    assert forall|dir: Seq<char>, prefix: Seq<char>, offset: i64|
        #[trigger] search_spec(h, dir, prefix, offset) != Some(c) by {
        let order = search_order(h, dir, prefix);
        let cands = newest_cmds(h.commands, crate::db::prefix_match(h, prefix));
        if search_spec(h, dir, prefix, offset) == Some(c) {
            let k = if offset < 0 {
                0
            } else {
                offset as int
            };
            assert(order[k] == c);
            let near = select(cands, |x: Seq<char>| crate::db::ran_in(h.commands, x, dir));
            let far = select(cands, |x: Seq<char>| !crate::db::ran_in(h.commands, x, dir));
            if k < near.len() {
                assert(near[k] == c);
                assert(near.contains(c));
                lemma_select_contains(cands, |x: Seq<char>| crate::db::ran_in(h.commands, x, dir), c);
            } else {
                assert(far[k - near.len()] == c);
                assert(far.contains(c));
                lemma_select_contains(cands, |x: Seq<char>| !crate::db::ran_in(h.commands, x, dir), c);
            }
            lemma_newest_cmds_contains(h.commands, crate::db::prefix_match(h, prefix), c);
        }
    }
    assert forall|i: int| 0 <= i < fav_rows_spec(h).len() implies (#[trigger] fav_rows_spec(
        h,
    )[i]).0 != c by {
        let live = live_favorites(h);
        let r = ranked::<FavEntry>(live);
        lemma_ranked_contains::<FavEntry>(live, r[i]);
        assert(r.contains(r[i]));
        let j = choose|j: int| 0 <= j < live.len() && live[j] == r[i];
        let p = |e: (Seq<char>, i64)| !deleted_cmd(h, e.0);
        let sel = select(h.favorites, p);
        assert(live[j].0 == sel[j].0);
        assert(sel.contains(sel[j]));
        lemma_select_contains(h.favorites, p, sel[j]);
    }
    assert forall|limit: i64, i: int|
        0 <= i < limited(ranked::<Counted>(tally(h.commands, active(h), by_cmd())), limit).len()
            implies (#[trigger] limited(
        ranked::<Counted>(tally(h.commands, active(h), by_cmd())),
        limit,
    )[i]).0 != c by {
        let t = tally(h.commands, active(h), by_cmd());
        let r = ranked::<Counted>(t);
        assert(limited(r, limit)[i] == r[i]);
        lemma_ranked_contains::<Counted>(t, r[i]);
        assert(r.contains(r[i]));
        let j = choose|j: int| 0 <= j < t.len() && t[j] == r[i];
        let d = distinct_keys(h.commands, active(h), by_cmd());
        assert(t[j].0 == d[j]);
        assert(d.contains(d[j]));
        lemma_distinct_keys_contains(h.commands, active(h), by_cmd(), d[j]);
    }
    assert forall|limit: i64, i: int|
        0 <= i < limited(ranked::<ErrorEntry>(error_entries(h)), limit).len() implies (
        #[trigger] limited(ranked::<ErrorEntry>(error_entries(h)), limit)[i]).0 != c by {
        let t = error_entries(h);
        let r = ranked::<ErrorEntry>(t);
        assert(limited(r, limit)[i] == r[i]);
        lemma_ranked_contains::<ErrorEntry>(t, r[i]);
        assert(r.contains(r[i]));
        let j = choose|j: int| 0 <= j < t.len() && t[j] == r[i];
        let d = distinct_keys(h.commands, active_failed(h), by_cmd());
        assert(t[j].0 == d[j]);
        assert(d.contains(d[j]));
        lemma_distinct_keys_contains(h.commands, active_failed(h), by_cmd(), d[j]);
    }
    assert forall|s: Seq<char>, i: int|
        0 <= i < timeline_spec(h, s).len() implies (#[trigger] timeline_spec(h, s)[i]).0 != c by {
        let sel = select(h.commands, in_session(h, s));
        assert(timeline_spec(h, s)[i].0 == sel[i].cmd);
        assert(sel.contains(sel[i]));
        lemma_select_contains(h.commands, in_session(h, s), sel[i]);
    }
    assert forall|home: Option<Seq<char>>|
        #[trigger] ranked::<SessionUsage>(session_usages(h, c, home)).len() == 0 by {
        let u = session_usages(h, c, home);
        let d = distinct_keys(h.commands, in_context(h, c), by_session());
        lemma_ranked_contains::<SessionUsage>(u, u[0]);
        if d.len() > 0 {
            assert(d.contains(d[0]));
            lemma_distinct_keys_contains(h.commands, in_context(h, c), by_session(), d[0]);
        }
    }
}

/// When `c` was soft-deleted, if it is.
pub open spec fn deleted_at(h: HistoryView, c: Seq<char>) -> Option<i64> {
    lookup(h.deleted, c)
}

/// `c` is the trimmed, non-blank text of one of the entries of `m`.
pub open spec fn marked_by(m: Seq<(Seq<char>, i64)>, c: Seq<char>) -> bool {
    exists|j: int| 0 <= j < m.len() && trimmed(#[trigger] m[j].0).len() > 0 && trimmed(m[j].0) == c
}

/// What a run of soft-deletes does: each command (as its trimmed text, when
/// that is not blank) is then deleted, what was deleted stays deleted, and the
/// other tables are unchanged; nothing else becomes deleted.
proof fn lemma_prune_changes(h: HistoryView, m: Seq<(Seq<char>, i64)>, now: i64)
    requires
        history_wf(h),
    ensures
        ({
            let h2 = apply_changes(h, prune_changes(m, now));
            &&& h2.commands == h.commands
            &&& h2.favorites == h.favorites
            &&& h2.notes == h.notes
            &&& h2.pending == h.pending
            &&& h2.sessions == h.sessions
            &&& forall|c: Seq<char>| deleted_cmd(h, c) ==> #[trigger] deleted_cmd(h2, c)
            &&& forall|j: int|
                0 <= j < m.len() && trimmed(m[j].0).len() > 0 ==> deleted_cmd(
                    h2,
                    trimmed(#[trigger] m[j].0),
                )
            &&& forall|c: Seq<char>|
                #[trigger] deleted_cmd(h2, c) ==> deleted_cmd(h, c) || marked_by(m, c)
            &&& forall|c: Seq<char>|
                !marked_by(m, c) ==> #[trigger] deleted_at(h2, c) == deleted_at(h, c)
        }),
    decreases m.len(),
{
    if m.len() == 0 {
        assert(prune_changes(m, now) =~= Seq::<ChangeView>::empty());
    } else {
        let init = m.drop_last();
        let e = m.last();
        let a = prune_changes(init, now);
        let b = soft_delete_changes(e.0, now);
        lemma_prune_changes(h, init, now);
        lemma_apply_changes_append(h, a, b);
        lemma_apply_changes_wf(h, a);
        let h1 = apply_changes(h, a);
        let h2 = apply_changes(h, prune_changes(m, now));
        assert(prune_changes(m, now) == a + b);
        assert(h2 == apply_changes(h1, b));
        let c = trimmed(e.0);
        assert forall|c2: Seq<char>| marked_by(init, c2) implies marked_by(m, c2) by {
            let j = choose|j: int|
                0 <= j < init.len() && trimmed(#[trigger] init[j].0).len() > 0 && trimmed(init[j].0)
                    == c2;
            assert(m[j] == init[j]);
        }
        if c.len() > 0 {
            assert(marked_by(m, c)) by {
                assert(m[m.len() - 1] == e);
            }
            lemma_apply_one(h1, ChangeView::ReplaceDeleted { cmd: c, deleted_ts: now });
            lemma_upserted(h1.deleted, c, now);
            assert forall|c2: Seq<char>| #[trigger] deleted_cmd(h2, c2) implies deleted_cmd(h, c2)
                || marked_by(m, c2) by {
                if c2 != c {
                    assert(lookup(h2.deleted, c2) == lookup(h1.deleted, c2));
                    assert(deleted_cmd(h1, c2));
                    if marked_by(init, c2) {
                        assert(marked_by(m, c2));
                    }
                }
            }
            assert forall|c2: Seq<char>| !marked_by(m, c2) implies #[trigger] deleted_at(h2, c2)
                == deleted_at(h, c2) by {
                assert(c2 != c);
                assert(lookup(h2.deleted, c2) == lookup(h1.deleted, c2));
                if marked_by(init, c2) {
                    assert(marked_by(m, c2));
                }
                assert(deleted_at(h1, c2) == deleted_at(h, c2));
            }
            assert forall|c2: Seq<char>| deleted_cmd(h1, c2) implies #[trigger] deleted_cmd(
                h2,
                c2,
            ) by {
                if c2 != c {
                    assert(lookup(h2.deleted, c2) == lookup(h1.deleted, c2));
                    assert(deleted_cmd(h1, c2));
                    if marked_by(init, c2) {
                        assert(marked_by(m, c2));
                    }
                }
            }
        } else {
            assert(b =~= Seq::<ChangeView>::empty());
            assert(h2 == h1);
            assert forall|c2: Seq<char>| !marked_by(m, c2) implies #[trigger] deleted_at(h2, c2)
                == deleted_at(h, c2) by {
                if marked_by(init, c2) {
                    assert(marked_by(m, c2));
                }
                assert(deleted_at(h1, c2) == deleted_at(h, c2));
            }
            assert forall|c2: Seq<char>| #[trigger] deleted_cmd(h2, c2) implies deleted_cmd(h, c2)
                || marked_by(m, c2) by {
                assert(deleted_cmd(h1, c2));
                if marked_by(init, c2) {
                    assert(marked_by(m, c2));
                }
            }
        }
        assert forall|j: int|
            0 <= j < m.len() && trimmed(m[j].0).len() > 0 implies deleted_cmd(
            h2,
            trimmed(#[trigger] m[j].0),
        ) by {
            if j < init.len() {
                assert(m[j] == init[j]);
                assert(deleted_cmd(h1, trimmed(init[j].0)));
            } else {
                assert(m[j] == e);
            }
        }
    }
}

/// Pruning the ignore list: with `--apply` every matched command (as its
/// trimmed text) is then soft-deleted, what was deleted stays deleted, every
/// other command keeps its deletion state and time, and nothing is destroyed; a
/// dry run changes nothing.
pub proof fn law_prune_deletes_matches(h: HistoryView, ignore: Seq<Seq<char>>, now: i64)
    requires
        history_wf(h),
    ensures
        apply_changes(h, prune_apply_changes(h, ignore, false, now)) == h,
        ({
            let m = prune_matches(h, ignore);
            let h2 = apply_changes(h, prune_apply_changes(h, ignore, true, now));
            &&& h2.commands == h.commands
            &&& h2.favorites == h.favorites
            &&& h2.notes == h.notes
            &&& h2.pending == h.pending
            &&& h2.sessions == h.sessions
            &&& forall|c: Seq<char>| deleted_cmd(h, c) ==> #[trigger] deleted_cmd(h2, c)
            &&& forall|j: int|
                0 <= j < m.len() && trimmed(m[j].0).len() > 0 ==> deleted_cmd(
                    h2,
                    trimmed(#[trigger] m[j].0),
                )
            &&& forall|c: Seq<char>|
                #[trigger] deleted_cmd(h2, c) ==> deleted_cmd(h, c) || marked_by(m, c)
            &&& forall|c: Seq<char>|
                !marked_by(m, c) ==> #[trigger] deleted_at(h2, c) == deleted_at(h, c)
        }),
{
    assert(prune_apply_changes(h, ignore, false, now) =~= Seq::<ChangeView>::empty());
    lemma_prune_changes(h, prune_matches(h, ignore), now);
}

/// Keeping some elements of a sequence without repeats gives one without
/// repeats.
pub proof fn lemma_select_no_duplicates<A>(s: Seq<A>, p: spec_fn(A) -> bool)
    requires
        s.no_duplicates(),
    ensures
        select(s, p).no_duplicates(),
    decreases s.len(),
{
    if s.len() > 0 {
        let init = s.drop_last();
        assert(init.no_duplicates()) by {
            assert forall|i: int, j: int|
                0 <= i < init.len() && 0 <= j < init.len() && i != j implies init[i] != init[j] by {
                assert(init[i] == s[i] && init[j] == s[j]);
            }
        }
        lemma_select_no_duplicates(init, p);
        lemma_select_contains(init, p, s.last());
        if select(init, p).contains(s.last()) {
            let k = choose|k: int| 0 <= k < init.len() && init[k] == s.last();
            assert(s[k] == s[s.len() - 1]);
        }
    }
}

/// Up-arrow search cycles without repeats, directory first: pressing Up again
/// (a larger offset) never gives a command already given, and once the search
/// gives a command never run in the current directory, every later press gives
/// such a command too.
pub proof fn law_search_cycles(h: HistoryView, cwd: Seq<char>, prefix: Seq<char>, a: i64, b: i64)
    requires
        0 <= a < b,
        search_spec(h, cwd, prefix, a) is Some,
        search_spec(h, cwd, prefix, b) is Some,
    ensures
        search_spec(h, cwd, prefix, a)->0 != search_spec(h, cwd, prefix, b)->0,
        crate::db::ran_in(h.commands, search_spec(h, cwd, prefix, b)->0, cwd)
            ==> crate::db::ran_in(h.commands, search_spec(h, cwd, prefix, a)->0, cwd),
{
    let cands = newest_cmds(h.commands, crate::db::prefix_match(h, prefix));
    let here = |c: Seq<char>| crate::db::ran_in(h.commands, c, cwd);
    let away = |c: Seq<char>| !crate::db::ran_in(h.commands, c, cwd);
    let near = select(cands, here);
    let far = select(cands, away);
    let order = search_order(h, cwd, prefix);
    assert(order == near + far);
    lemma_newest_cmds_distinct(h.commands, crate::db::prefix_match(h, prefix));
    lemma_select_no_duplicates(cands, here);
    lemma_select_no_duplicates(cands, away);
    let x = order[a as int];
    let y = order[b as int];
    if a < near.len() {
        assert(x == near[a as int]);
        assert(near.contains(x));
        lemma_select_contains(cands, here, x);
    } else {
        assert(x == far[a - near.len()]);
        assert(far.contains(x));
        lemma_select_contains(cands, away, x);
    }
    if b < near.len() {
        assert(y == near[b as int]);
        assert(near.contains(y));
        lemma_select_contains(cands, here, y);
    } else {
        assert(y == far[b - near.len()]);
        assert(far.contains(y));
        lemma_select_contains(cands, away, y);
    }
}

/// Nothing is ever destroyed: whatever changes the operations issue, every
/// command row stays in place; rows are only ever appended.
pub proof fn law_commands_never_lost(h: HistoryView, cs: Seq<ChangeView>)
    ensures
        h.commands.len() <= apply_changes(h, cs).commands.len(),
        apply_changes(h, cs).commands.take(h.commands.len() as int) == h.commands,
    decreases cs.len(),
{
    if cs.len() > 0 {
        let h1 = apply_change(h, cs[0]);
        law_commands_never_lost(h1, cs.drop_first());
        assert(h.commands.len() <= h1.commands.len());
        assert(h1.commands.take(h.commands.len() as int) == h.commands);
        let h2 = apply_changes(h, cs);
        assert(h2.commands.take(h.commands.len() as int) =~= h1.commands.take(
            h1.commands.len() as int,
        ).take(h.commands.len() as int));
    } else {
        assert(h.commands.take(h.commands.len() as int) =~= h.commands);
    }
}

/// Restore brings a command back: afterwards it is not deleted, every other
/// command keeps its deleted state, and no other table changes.
pub proof fn law_restore_reveals(h: HistoryView, cmd: Seq<char>)
    requires
        history_wf(h),
    ensures
        ({
            let h2 = apply_changes(h, restore_changes(cmd));
            &&& !deleted_cmd(h2, trimmed(cmd))
            &&& forall|other: Seq<char>|
                other != trimmed(cmd) ==> #[trigger] deleted_cmd(h2, other) == deleted_cmd(h, other)
            &&& h2.commands == h.commands
            &&& h2.favorites == h.favorites
            &&& h2.notes == h.notes
            &&& h2.pending == h.pending
            &&& h2.sessions == h.sessions
        }),
{
    let c = trimmed(cmd);
    lemma_apply_one(h, ChangeView::DeleteDeleted { cmd: c });
    lemma_removed(h.deleted, c);
    let h2 = apply_changes(h, restore_changes(cmd));
    assert forall|other: Seq<char>| other != c implies #[trigger] deleted_cmd(h2, other)
        == deleted_cmd(h, other) by {
        assert(lookup(h2.deleted, other) == lookup(h.deleted, other));
    }
}

/// Adding a favorite is idempotent: adding it again (at any time) changes
/// nothing, and the favorite keeps the time it was first added.
pub proof fn law_fav_add_idempotent(h: HistoryView, cmd: Seq<char>, t1: i64, t2: i64)
    requires
        history_wf(h),
    ensures
        ({
            let h1 = apply_changes(h, fav_add_changes(cmd, t1));
            &&& apply_changes(h1, fav_add_changes(cmd, t2)) == h1
            &&& trimmed(cmd).len() > 0 ==> favorite_cmd(h1, trimmed(cmd))
        }),
{
    let c = trimmed(cmd);
    let h1 = apply_changes(h, fav_add_changes(cmd, t1));
    if c.len() > 0 {
        lemma_apply_one(h, ChangeView::InsertFavoriteOrIgnore { cmd: c, created_ts: t1 });
        lemma_inserted_if_absent(h.favorites, c, t1);
        lemma_apply_one(h1, ChangeView::InsertFavoriteOrIgnore { cmd: c, created_ts: t2 });
        assert(has_key(h1.favorites, c));
        assert(inserted_if_absent(h1.favorites, c, t2) == h1.favorites);
        assert(apply_changes(h1, fav_add_changes(cmd, t2)) =~= h1);
    } else {
        assert(fav_add_changes(cmd, t1) =~= Seq::<ChangeView>::empty());
        assert(fav_add_changes(cmd, t2) =~= Seq::<ChangeView>::empty());
    }
}

/// What `p` accepts of `s` is kept.
pub proof fn lemma_select_includes<A>(s: Seq<A>, p: spec_fn(A) -> bool, x: A)
    requires
        s.contains(x),
        p(x),
    ensures
        select(s, p).contains(x),
    decreases s.len(),
{
    let init = s.drop_last();
    if s.last() == x {
        assert(select(s, p) == select(init, p).push(x));
        assert(select(s, p)[select(s, p).len() - 1] == x);
    } else {
        let i = choose|i: int| 0 <= i < s.len() && s[i] == x;
        assert(i < s.len() - 1);
        assert(init[i] == x);
        lemma_select_includes(init, p, x);
        let j = choose|j: int| 0 <= j < select(init, p).len() && select(init, p)[j] == x;
        if p(s.last()) {
            assert(select(s, p)[j] == x);
        }
    }
}

/// The kept and the dropped elements together are as many as all of them.
proof fn lemma_select_split_len<A>(s: Seq<A>, p: spec_fn(A) -> bool, q: spec_fn(A) -> bool)
    requires
        forall|x: A| #[trigger] q(x) == !p(x),
    ensures
        select(s, p).len() + select(s, q).len() == s.len(),
    decreases s.len(),
{
    if s.len() > 0 {
        lemma_select_split_len(s.drop_last(), p, q);
        assert(q(s.last()) == !p(s.last()));
    }
}

proof fn lemma_newest_cmds_len(rows: Seq<CommandView>, keep: spec_fn(CommandView) -> bool)
    ensures
        newest_cmds(rows, keep).len() <= rows.len(),
    decreases rows.len(),
{
    if rows.len() > 0 {
        lemma_newest_cmds_len(rows.drop_first(), keep);
    }
}

/// Up-arrow search reaches every match: a command that is not soft-deleted and
/// has a run starting with the typed prefix is given at some offset, whatever
/// the current directory.
pub proof fn law_search_finds_every_match(h: HistoryView, cwd: Seq<char>, prefix: Seq<char>, k: int)
    requires
        history_wf(h),
        0 <= k < h.commands.len(),
        !deleted_cmd(h, h.commands[k].cmd),
        like_prefix(prefix, h.commands[k].cmd),
    ensures
        exists|offset: i64|
            0 <= offset && #[trigger] search_spec(h, cwd, prefix, offset) == Some(
                h.commands[k].cmd,
            ),
{
    let c = h.commands[k].cmd;
    let keep = crate::db::prefix_match(h, prefix);
    let cands = newest_cmds(h.commands, keep);
    let here = |x: Seq<char>| crate::db::ran_in(h.commands, x, cwd);
    let away = |x: Seq<char>| !crate::db::ran_in(h.commands, x, cwd);
    let near = select(cands, here);
    let far = select(cands, away);
    let order = search_order(h, cwd, prefix);
    assert(order == near + far);
    lemma_escaped_prefix_like(prefix, c);
    assert(keep(h.commands[k]));
    lemma_newest_cmds_contains(h.commands, keep, c);
    lemma_newest_cmds_len(h.commands, keep);
    lemma_select_split_len(cands, here, away);
    if here(c) {
        lemma_select_includes(cands, here, c);
        let j = choose|j: int| 0 <= j < near.len() && near[j] == c;
        assert(order[j] == c);
        assert(search_spec(h, cwd, prefix, j as i64) == Some(c));
    } else {
        lemma_select_includes(cands, away, c);
        let j = choose|j: int| 0 <= j < far.len() && far[j] == c;
        assert(order[near.len() + j] == c);
        assert(search_spec(h, cwd, prefix, (near.len() + j) as i64) == Some(c));
    }
}

/// A key that some accepted row has is among the groups.
pub proof fn lemma_kept_key_is_group<K>(
    rows: Seq<CommandView>,
    keep: spec_fn(CommandView) -> bool,
    key: spec_fn(CommandView) -> K,
    k: K,
)
    ensures
        kept_with_key(rows, keep, key, k) ==> distinct_keys(rows, keep, key).contains(k),
    decreases rows.len(),
{
    if rows.len() > 0 {
        let init = rows.drop_last();
        let d0 = distinct_keys(init, keep, key);
        let d = distinct_keys(rows, keep, key);
        lemma_kept_key_is_group(init, keep, key, k);
        if kept_with_key(rows, keep, key, k) {
            let i = choose|i: int| 0 <= i < rows.len() && #[trigger] keep(rows[i]) && key(rows[i]) == k;
            if i < rows.len() - 1 {
                assert(init[i] == rows[i]);
                assert(keep(init[i]) && key(init[i]) == k);
                let q = choose|q: int| 0 <= q < d0.len() && d0[q] == k;
                if keep(rows.last()) && !d0.contains(key(rows.last())) {
                    assert(d[q] == k);
                } else {
                    assert(d == d0);
                }
            } else {
                assert(rows[i] == rows.last());
                if d0.contains(k) {
                    assert(d == d0);
                } else {
                    assert(d == d0.push(k));
                    assert(d[d.len() - 1] == k);
                }
            }
        }
    }
}

/// Every entry of `prune_matches` is an active stored command that the
/// ignore list matches.
proof fn lemma_prune_match_row(h: HistoryView, ignore: Seq<Seq<char>>, j: int)
    requires
        0 <= j < prune_matches(h, ignore).len(),
    ensures
        kept_with_key(h.commands, active(h), by_cmd(), prune_matches(h, ignore)[j].0),
        ignored_by(ignore, prune_matches(h, ignore)[j].0),
{
    let t = tally(h.commands, active(h), by_cmd());
    let r = ranked::<Counted>(t);
    let p = |e: (Seq<char>, i64)| ignored_by(ignore, e.0);
    let m = prune_matches(h, ignore);
    assert(m.contains(m[j]));
    lemma_select_contains(r, p, m[j]);
    lemma_ranked_contains::<Counted>(t, m[j]);
    let q = choose|q: int| 0 <= q < t.len() && t[q] == m[j];
    let d = distinct_keys(h.commands, active(h), by_cmd());
    assert(t[q].0 == d[q]);
    assert(d.contains(d[q]));
    lemma_distinct_keys_contains(h.commands, active(h), by_cmd(), d[q]);
}

/// An active stored command that the ignore list matches is among
/// `prune_matches`.
proof fn lemma_prune_match_of_row(h: HistoryView, ignore: Seq<Seq<char>>, i: int)
    requires
        0 <= i < h.commands.len(),
        active(h)(h.commands[i]),
        ignored_by(ignore, h.commands[i].cmd),
    ensures
        exists|j: int|
            0 <= j < prune_matches(h, ignore).len() && #[trigger] prune_matches(h, ignore)[j].0
                == h.commands[i].cmd,
{
    let k = h.commands[i].cmd;
    let t = tally(h.commands, active(h), by_cmd());
    let r = ranked::<Counted>(t);
    let p = |e: (Seq<char>, i64)| ignored_by(ignore, e.0);
    let m = prune_matches(h, ignore);
    let d = distinct_keys(h.commands, active(h), by_cmd());
    assert(kept_with_key(h.commands, active(h), by_cmd(), k)) by {
        assert(active(h)(h.commands[i]) && (by_cmd())(h.commands[i]) == k);
    }
    lemma_kept_key_is_group(h.commands, active(h), by_cmd(), k);
    let q = choose|q: int| 0 <= q < d.len() && d[q] == k;
    assert(t[q].0 == k);
    assert(t.contains(t[q]));
    lemma_ranked_contains::<Counted>(t, t[q]);
    assert(p(t[q]));
    lemma_select_includes(r, p, t[q]);
    let j = choose|j: int| 0 <= j < m.len() && m[j] == t[q];
    assert(m[j].0 == k);
}

/// Some entry of `m` is the command `c`.
pub open spec fn matched_cmd(m: Seq<(Seq<char>, i64)>, c: Seq<char>) -> bool {
    exists|j: int| 0 <= j < m.len() && #[trigger] m[j].0 == c
}

/// Pruning twice: when every stored command is non-blank and trimmed (as
/// `start` and `import` store them), `prune ignore --apply` soft-deletes
/// exactly the matched commands besides those already deleted, which keep
/// their deletion times, and afterwards the ignore list matches nothing: a
/// second run finds nothing to do.
pub proof fn law_prune_again_matches_nothing(h: HistoryView, ignore: Seq<Seq<char>>, now: i64)
    requires
        history_wf(h),
        forall|i: int|
            0 <= i < h.commands.len() ==> trimmed(#[trigger] h.commands[i].cmd) == h.commands[i].cmd
                && h.commands[i].cmd.len() > 0,
    ensures
        ({
            let m = prune_matches(h, ignore);
            let h2 = apply_changes(h, prune_apply_changes(h, ignore, true, now));
            &&& forall|c: Seq<char>|
                #[trigger] deleted_cmd(h2, c) <==> deleted_cmd(h, c) || matched_cmd(m, c)
            &&& forall|c: Seq<char>|
                deleted_cmd(h, c) ==> #[trigger] deleted_at(h2, c) == deleted_at(h, c)
            &&& prune_matches(h2, ignore).len() == 0
        }),
{
    let m = prune_matches(h, ignore);
    let h2 = apply_changes(h, prune_apply_changes(h, ignore, true, now));
    lemma_prune_changes(h, m, now);
    assert forall|j: int| 0 <= j < m.len() implies trimmed(#[trigger] m[j].0) == m[j].0
        && m[j].0.len() > 0 by {
        lemma_prune_match_row(h, ignore, j);
        let i = choose|i: int|
            0 <= i < h.commands.len() && #[trigger] (active(h))(h.commands[i]) && (by_cmd())(
                h.commands[i],
            ) == m[j].0;
        assert(trimmed(h.commands[i].cmd) == h.commands[i].cmd);
    }
    assert forall|c: Seq<char>| #[trigger] deleted_cmd(h2, c) <==> deleted_cmd(h, c)
        || matched_cmd(m, c) by {
        if matched_cmd(m, c) {
            let j = choose|j: int| 0 <= j < m.len() && #[trigger] m[j].0 == c;
            assert(trimmed(m[j].0) == m[j].0);
        }
        if marked_by(m, c) {
            let j = choose|j: int|
                0 <= j < m.len() && trimmed(#[trigger] m[j].0).len() > 0 && trimmed(m[j].0) == c;
            assert(trimmed(m[j].0) == m[j].0);
            assert(m[j].0 == c);
        }
    }
    assert forall|c: Seq<char>| deleted_cmd(h, c) implies #[trigger] deleted_at(h2, c)
        == deleted_at(h, c) by {
        if marked_by(m, c) {
            let j = choose|j: int|
                0 <= j < m.len() && trimmed(#[trigger] m[j].0).len() > 0 && trimmed(m[j].0) == c;
            lemma_prune_match_row(h, ignore, j);
            let i = choose|i: int|
                0 <= i < h.commands.len() && #[trigger] (active(h))(h.commands[i]) && (by_cmd())(
                    h.commands[i],
                ) == m[j].0;
            assert(trimmed(m[j].0) == m[j].0);
            assert(!deleted_cmd(h, m[j].0));
        }
    }
    let m2 = prune_matches(h2, ignore);
    if m2.len() > 0 {
        lemma_prune_match_row(h2, ignore, 0);
        let c = m2[0].0;
        let i = choose|i: int|
            0 <= i < h2.commands.len() && #[trigger] (active(h2))(h2.commands[i]) && (by_cmd())(
                h2.commands[i],
            ) == c;
        assert(h2.commands[i] == h.commands[i]);
        assert(!deleted_cmd(h2, c));
        assert(!deleted_cmd(h, c));
        assert((active(h))(h.commands[i]));
        lemma_prune_match_of_row(h, ignore, i);
        let j = choose|j: int| 0 <= j < m.len() && #[trigger] m[j].0 == c;
        assert(matched_cmd(m, c));
        assert(deleted_cmd(h2, c));
    }
}

/// Some row of `rows` is a run of `c`.
pub open spec fn has_cmd(rows: Seq<CommandView>, c: Seq<char>) -> bool {
    exists|i: int| 0 <= i < rows.len() && #[trigger] rows[i].cmd == c
}

/// With room for the rows, importing commands appends one row per command, in
/// order, after the rows already stored.
proof fn lemma_import_appends(h: HistoryView, cmds: Seq<Seq<char>>, t: i64)
    requires
        h.commands.len() + cmds.len() + 1 < i64::MAX,
        next_id(h.commands) + cmds.len() <= i64::MAX,
    ensures
        ({
            let h2 = apply_changes(h, import_changes(cmds, t));
            &&& h2.commands.len() == h.commands.len() + cmds.len()
            &&& h2.commands.take(h.commands.len() as int) == h.commands
            &&& forall|i: int|
                0 <= i < cmds.len() ==> #[trigger] h2.commands[h.commands.len() + i].cmd == cmds[i]
            &&& next_id(h2.commands) == next_id(h.commands) + cmds.len()
        }),
    decreases cmds.len(),
{
    let cs = import_changes(cmds, t);
    let h2 = apply_changes(h, cs);
    if cmds.len() == 0 {
        assert(cs =~= Seq::<ChangeView>::empty());
        assert(h.commands.take(h.commands.len() as int) =~= h.commands);
    } else {
        let rest = cmds.drop_first();
        assert(cs[0] == import_change(cmds[0], t));
        assert(cs.drop_first() =~= import_changes(rest, t));
        let h1 = apply_change(h, cs[0]);
        assert(can_append(h));
        assert(h1.commands == h.commands.push(h1.commands.last()));
        assert(h1.commands.last().cmd == cmds[0]);
        assert(h1.commands.last().id == next_id(h.commands));
        lemma_import_appends(h1, rest, t);
        assert(h2 == apply_changes(h1, import_changes(rest, t)));
        let n = h.commands.len();
        assert(h2.commands.take(n as int) =~= h2.commands.take((n + 1) as int).take(n as int));
        assert(h2.commands.take((n + 1) as int) == h1.commands);
        assert(h1.commands.take(n as int) =~= h.commands);
        assert forall|i: int| 0 <= i < cmds.len() implies #[trigger] h2.commands[n + i].cmd
            == cmds[i] by {
            if i == 0 {
                assert(h2.commands[n as int] == h2.commands.take((n + 1) as int)[n as int]);
            } else {
                assert(rest[i - 1] == cmds[i]);
                assert(h2.commands[h1.commands.len() + (i - 1)].cmd == rest[i - 1]);
            }
        }
    }
}

/// Importing the same history twice adds no new command: the second import
/// appends one row per imported command again (so each run count grows), but
/// the commands the table holds are the same as after the first. (Stated with
/// room in the id range for both imports.)
pub proof fn law_reimport_adds_no_command(h: HistoryView, content: Seq<char>, t1: i64, t2: i64)
    requires
        h.commands.len() + 2 * zsh_commands(content).len() + 1 < i64::MAX,
        next_id(h.commands) + 2 * zsh_commands(content).len() <= i64::MAX,
    ensures
        ({
            let cmds = zsh_commands(content);
            let h1 = apply_changes(h, import_changes(cmds, t1));
            let h2 = apply_changes(h1, import_changes(cmds, t2));
            &&& h1.commands.len() == h.commands.len() + cmds.len()
            &&& h2.commands.len() == h1.commands.len() + cmds.len()
            &&& forall|c: Seq<char>| #[trigger] has_cmd(h2.commands, c) <==> has_cmd(h1.commands, c)
        }),
{
    let cmds = zsh_commands(content);
    let h1 = apply_changes(h, import_changes(cmds, t1));
    let h2 = apply_changes(h1, import_changes(cmds, t2));
    lemma_import_appends(h, cmds, t1);
    lemma_import_appends(h1, cmds, t2);
    let n0 = h.commands.len();
    let n1 = h1.commands.len();
    assert forall|c: Seq<char>| #[trigger] has_cmd(h2.commands, c) <==> has_cmd(h1.commands, c) by {
        if has_cmd(h1.commands, c) {
            let i = choose|i: int| 0 <= i < h1.commands.len() && #[trigger] h1.commands[i].cmd == c;
            assert(h2.commands[i] == h2.commands.take(n1 as int)[i]);
            assert(h2.commands[i].cmd == c);
        }
        if has_cmd(h2.commands, c) {
            let i = choose|i: int| 0 <= i < h2.commands.len() && #[trigger] h2.commands[i].cmd == c;
            if i < n1 {
                assert(h2.commands[i] == h2.commands.take(n1 as int)[i]);
                assert(h1.commands[i].cmd == c);
            } else {
                let j = i - n1;
                assert(h2.commands[n1 + j].cmd == cmds[j]);
                assert(h1.commands[n0 + j].cmd == cmds[j]);
                assert(h1.commands[n0 + j].cmd == c);
            }
        }
    }
}

} // verus!

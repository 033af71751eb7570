//! What the queries promise, stated over the stored rows themselves: which
//! commands the filtered listing shows, which command the Up-arrow search
//! gives first, when `inspect` knows a command, and in what order every ranked
//! answer comes.

use vstd::prelude::*;

use crate::db::{
    count_rows, deleted_cmd, error_entries, inspect_spec, list_rows_spec, listed, newest_cmds,
    runs_of, search_order, search_spec, select,
};
use crate::entries::{code_before, Counted, DeletedEntry, ErrorEntry, ExitTally, FavEntry, SessionUsage};
use crate::keyed::{has_key, lookup};
use crate::laws::{
    lemma_newest_cmds_contains, lemma_select_contains, lemma_select_includes,
    law_note_set_then_get,
};
use crate::like::{escaped, lemma_escaped_prefix_like, like_prefix};
use crate::model::{apply_changes, history_wf, CommandView, HistoryView};
use crate::ops::note_set_changes;
use crate::rank::{limited, rank_order, ranked, Rank};
use crate::text::{text_le, trim_end, trim_start, trimmed};

verus! {

// ---------------------------------------------------------------------------
// Listing with filters
// ---------------------------------------------------------------------------

/// The run passes the listing's `--cwd` and `--exit` filters, stated on the
/// row itself.
pub open spec fn run_passes(r: CommandView, cwd: Option<Seq<char>>, exit: Option<i64>) -> bool {
    (match exit {
        Some(e) => r.exit_code == Some(e),
        None => true,
    }) && (match cwd {
        Some(d) => r.cwd == d,
        None => true,
    })
}

/// `query --list` with `--cwd d` and/or `--exit e`: every listed command is
/// not soft-deleted and has a run in exactly `d` that exited with exactly `e`
/// (where those are given); and, with no limit, every such command is listed.
pub proof fn law_list_filters(h: HistoryView, cwd: Option<Seq<char>>, exit: Option<i64>)
    ensures
        forall|i: int|
            0 <= i < list_rows_spec(h, cwd, exit, None).len() ==> !deleted_cmd(
                h,
                (#[trigger] list_rows_spec(h, cwd, exit, None)[i]).0,
            ) && exists|k: int|
                0 <= k < h.commands.len() && #[trigger] h.commands[k].cmd == list_rows_spec(
                    h,
                    cwd,
                    exit,
                    None,
                )[i].0 && run_passes(h.commands[k], cwd, exit),
        forall|k: int|
            0 <= k < h.commands.len() && run_passes(h.commands[k], cwd, exit) && !deleted_cmd(
                h,
                #[trigger] h.commands[k].cmd,
            ) ==> exists|i: int|
                0 <= i < list_rows_spec(h, cwd, exit, None).len() && (#[trigger] list_rows_spec(
                    h,
                    cwd,
                    exit,
                    None,
                )[i]).0 == h.commands[k].cmd,
{
    let keep = listed(h, cwd, exit);
    let all = newest_cmds(h.commands, keep);
    let l = list_rows_spec(h, cwd, exit, None);
    assert(l.len() == all.len());
    assert forall|i: int| 0 <= i < l.len() implies !deleted_cmd(h, (#[trigger] l[i]).0)
        && exists|k: int|
        0 <= k < h.commands.len() && #[trigger] h.commands[k].cmd == l[i].0 && run_passes(
            h.commands[k],
            cwd,
            exit,
        ) by {
        let c = all[i];
        assert(l[i].0 == c);
        assert(all.contains(c));
        lemma_newest_cmds_contains(h.commands, keep, c);
        let k = choose|k: int|
            0 <= k < h.commands.len() && keep(#[trigger] h.commands[k]) && h.commands[k].cmd == c;
        assert(run_passes(h.commands[k], cwd, exit));
    }
    assert forall|k: int|
        0 <= k < h.commands.len() && run_passes(h.commands[k], cwd, exit) && !deleted_cmd(
            h,
            #[trigger] h.commands[k].cmd,
        ) implies exists|i: int| 0 <= i < l.len() && (#[trigger] l[i]).0 == h.commands[k].cmd by {
        let c = h.commands[k].cmd;
        assert(keep(h.commands[k]));
        lemma_newest_cmds_contains(h.commands, keep, c);
        let i = choose|i: int| 0 <= i < all.len() && all[i] == c;
        assert(l[i].0 == c);
    }
}

// ---------------------------------------------------------------------------
// Up-arrow search
// ---------------------------------------------------------------------------

/// Up-arrow search ranks the current directory first: when some command that
/// is not soft-deleted and starts with the typed prefix has a stored run in
/// directory `d` (whatever its exit code), the first answer in `d` is a command
/// with a stored run in `d`.
pub proof fn law_search_here_first(h: HistoryView, d: Seq<char>, prefix: Seq<char>, k: int)
    requires
        0 <= k < h.commands.len(),
        h.commands[k].cwd == d,
        !deleted_cmd(h, h.commands[k].cmd),
        like_prefix(prefix, h.commands[k].cmd),
    ensures
        search_spec(h, d, prefix, 0) is Some,
        exists|i: int|
            0 <= i < h.commands.len() && #[trigger] h.commands[i].cmd == search_spec(
                h,
                d,
                prefix,
                0,
            )->0 && h.commands[i].cwd == d,
{
    let c = h.commands[k].cmd;
    let keep = crate::db::prefix_match(h, prefix);
    let cands = newest_cmds(h.commands, keep);
    let here = |x: Seq<char>| crate::db::ran_in(h.commands, x, d);
    let away = |x: Seq<char>| !crate::db::ran_in(h.commands, x, d);
    let near = select(cands, here);
    let far = select(cands, away);
    let order = search_order(h, d, prefix);
    assert(order == near + far);
    lemma_escaped_prefix_like(prefix, c);
    assert(keep(h.commands[k]));
    lemma_newest_cmds_contains(h.commands, keep, c);
    assert(here(c));
    lemma_select_includes(cands, here, c);
    assert(near.len() > 0);
    assert(order[0] == near[0]);
    assert(near.contains(near[0]));
    lemma_select_contains(cands, here, near[0]);
    assert(search_spec(h, d, prefix, 0) == Some(near[0]));
}

/// Up-arrow search never gives a command without a stored run in the current
/// directory before one with such a run: of two answers at offsets `a < b`, if
/// the later one has a run in `d`, so has the earlier.
pub proof fn law_search_here_before_elsewhere(
    h: HistoryView,
    d: Seq<char>,
    prefix: Seq<char>,
    a: i64,
    b: i64,
)
    requires
        0 <= a < b,
        search_spec(h, d, prefix, a) is Some,
        search_spec(h, d, prefix, b) is Some,
    ensures
        (exists|i: int|
            0 <= i < h.commands.len() && #[trigger] h.commands[i].cmd == search_spec(
                h,
                d,
                prefix,
                b,
            )->0 && h.commands[i].cwd == d) ==> (exists|i: int|
            0 <= i < h.commands.len() && #[trigger] h.commands[i].cmd == search_spec(
                h,
                d,
                prefix,
                a,
            )->0 && h.commands[i].cwd == d),
{
    crate::laws::law_search_cycles(h, d, prefix, a, b);
}

// ---------------------------------------------------------------------------
// Inspect
// ---------------------------------------------------------------------------

proof fn lemma_count_rows_positive(rows: Seq<CommandView>, keep: spec_fn(CommandView) -> bool)
    ensures
        count_rows(rows, keep) > 0 <==> exists|i: int| 0 <= i < rows.len() && #[trigger] keep(rows[i]),
    decreases rows.len(),
{
    if rows.len() > 0 {
        let init = rows.drop_last();
        lemma_count_rows_positive(init, keep);
        crate::db::lemma_count_rows_bounded(init, keep);
        if exists|i: int| 0 <= i < init.len() && #[trigger] keep(init[i]) {
            let i = choose|i: int| 0 <= i < init.len() && #[trigger] keep(init[i]);
            assert(rows[i] == init[i]);
        }
        if exists|i: int| 0 <= i < rows.len() && #[trigger] keep(rows[i]) {
            let i = choose|i: int| 0 <= i < rows.len() && #[trigger] keep(rows[i]);
            if i < rows.len() - 1 {
                assert(init[i] == rows[i]);
            }
        }
    }
}

/// `inspect` knows a command exactly when its trimmed text is not empty and it
/// has a stored run, is a favorite, or has a non-empty note; then it reports
/// the stored note (empty when there is none) and whether it is a favorite.
pub proof fn law_inspect_known(h: HistoryView, cmd: Seq<char>)
    ensures
        ({
            let c = trimmed(cmd);
            let noted = match lookup(h.notes, c) {
                Some(n) => n.len() > 0,
                None => false,
            };
            inspect_spec(h, cmd) is Some <==> c.len() > 0 && ((exists|i: int|
                0 <= i < h.commands.len() && #[trigger] h.commands[i].cmd == c) || has_key(
                h.favorites,
                c,
            ) || noted)
        }),
        inspect_spec(h, cmd) matches Some(s) ==> s.note == (match lookup(h.notes, trimmed(cmd)) {
            Some(n) => n,
            None => Seq::<char>::empty(),
        }) && s.is_favorite == has_key(h.favorites, trimmed(cmd)),
{
    let c = trimmed(cmd);
    let keep = runs_of(h, c);
    lemma_count_rows_positive(h.commands, keep);
    crate::db::lemma_count_rows_bounded(h.commands, keep);
    if exists|i: int| 0 <= i < h.commands.len() && #[trigger] h.commands[i].cmd == c {
        let i = choose|i: int| 0 <= i < h.commands.len() && #[trigger] h.commands[i].cmd == c;
        assert(keep(h.commands[i]));
    }
    if exists|i: int| 0 <= i < h.commands.len() && #[trigger] keep(h.commands[i]) {
        let i = choose|i: int| 0 <= i < h.commands.len() && #[trigger] keep(h.commands[i]);
        assert(h.commands[i].cmd == c);
    }
}

proof fn lemma_trimmed_nonempty(s: Seq<char>)
    ensures
        trimmed(s).len() > 0 ==> s.len() > 0,
{
    if s.len() == 0 {
        assert(trim_start(s) == s);
        assert(trim_end(s) == s);
    }
}

/// After setting a non-blank note on a command, `inspect` knows the command and
/// reports that note, whether or not it ever ran or is a favorite.
pub proof fn law_note_set_then_inspect(h: HistoryView, cmd: Seq<char>, note: Seq<char>)
    requires
        history_wf(h),
        trimmed(cmd).len() > 0,
        trimmed(note).len() > 0,
    ensures
        inspect_spec(apply_changes(h, note_set_changes(cmd, note)), cmd) matches Some(s)
            && s.note == note,
{
    let h2 = apply_changes(h, note_set_changes(cmd, note));
    law_note_set_then_get(h, cmd, note);
    lemma_trimmed_nonempty(note);
    law_inspect_known(h2, cmd);
}

// ---------------------------------------------------------------------------
// Order of the ranked answers
// ---------------------------------------------------------------------------

/// A ranked sequence is sorted by its rank relation.
pub proof fn lemma_ranked_sorted<T: Rank>(s: Seq<T::V>)
    ensures
        forall|i: int, j: int|
            0 <= i < j < ranked::<T>(s).len() ==> T::rank_le(
                #[trigger] ranked::<T>(s)[i],
                #[trigger] ranked::<T>(s)[j],
            ),
{
    T::lemma_rank_total();
    s.lemma_sort_by_ensures(rank_order::<T>());
    assert forall|i: int, j: int| 0 <= i < j < ranked::<T>(s).len() implies T::rank_le(
        #[trigger] ranked::<T>(s)[i],
        #[trigger] ranked::<T>(s)[j],
    ) by {
        assert((rank_order::<T>())(ranked::<T>(s)[i], ranked::<T>(s)[j]));
    }
}

/// Error-prone commands `(cmd, failures, runs)`: most failures first, then
/// most runs, then by command; also when limited.
pub proof fn law_error_prone_order(h: HistoryView, limit: i64)
    ensures
        forall|i: int, j: int|
            0 <= i < j < limited(ranked::<ErrorEntry>(error_entries(h)), limit).len() ==> {
                let x = #[trigger] limited(ranked::<ErrorEntry>(error_entries(h)), limit)[i];
                let y = #[trigger] limited(ranked::<ErrorEntry>(error_entries(h)), limit)[j];
                &&& x.1 >= y.1
                &&& x.1 == y.1 ==> x.2 >= y.2
                &&& x.1 == y.1 && x.2 == y.2 ==> text_le(x.0, y.0)
            },
{
    let r = ranked::<ErrorEntry>(error_entries(h));
    lemma_ranked_sorted::<ErrorEntry>(error_entries(h));
    assert forall|i: int, j: int| 0 <= i < j < limited(r, limit).len() implies {
        let x = #[trigger] limited(r, limit)[i];
        let y = #[trigger] limited(r, limit)[j];
        &&& x.1 >= y.1
        &&& x.1 == y.1 ==> x.2 >= y.2
        &&& x.1 == y.1 && x.2 == y.2 ==> text_le(x.0, y.0)
    } by {
        assert(limited(r, limit)[i] == r[i] && limited(r, limit)[j] == r[j]);
        assert(ErrorEntry::rank_le(r[i], r[j]));
    }
}

/// Counted answers `(text, count)` (the most-run commands, the busiest
/// directories, a command's directories): highest count first, then by text;
/// also when limited.
pub proof fn law_counted_order(t: Seq<(Seq<char>, i64)>, limit: i64)
    ensures
        forall|i: int, j: int|
            0 <= i < j < limited(ranked::<Counted>(t), limit).len() ==> {
                let x = #[trigger] limited(ranked::<Counted>(t), limit)[i];
                let y = #[trigger] limited(ranked::<Counted>(t), limit)[j];
                &&& x.1 >= y.1
                &&& x.1 == y.1 ==> text_le(x.0, y.0)
            },
{
    let r = ranked::<Counted>(t);
    lemma_ranked_sorted::<Counted>(t);
    assert forall|i: int, j: int| 0 <= i < j < limited(r, limit).len() implies {
        let x = #[trigger] limited(r, limit)[i];
        let y = #[trigger] limited(r, limit)[j];
        &&& x.1 >= y.1
        &&& x.1 == y.1 ==> text_le(x.0, y.0)
    } by {
        assert(limited(r, limit)[i] == r[i] && limited(r, limit)[j] == r[j]);
        assert(Counted::rank_le(r[i], r[j]));
    }
}

/// Favorites `(cmd, created_ts, noted)`: newest first, then by command.
pub proof fn law_favorites_order(t: Seq<(Seq<char>, i64, bool)>)
    ensures
        forall|i: int, j: int|
            0 <= i < j < ranked::<FavEntry>(t).len() ==> {
                let x = #[trigger] ranked::<FavEntry>(t)[i];
                let y = #[trigger] ranked::<FavEntry>(t)[j];
                &&& x.1 >= y.1
                &&& x.1 == y.1 && x.0 != y.0 ==> text_le(x.0, y.0)
            },
{
    lemma_ranked_sorted::<FavEntry>(t);
}

/// Soft-deleted commands `(cmd, deleted_ts, runs)`: newest deletion first,
/// then by command.
pub proof fn law_deleted_order(t: Seq<(Seq<char>, i64, i64)>)
    ensures
        forall|i: int, j: int|
            0 <= i < j < ranked::<DeletedEntry>(t).len() ==> {
                let x = #[trigger] ranked::<DeletedEntry>(t)[i];
                let y = #[trigger] ranked::<DeletedEntry>(t)[j];
                &&& x.1 >= y.1
                &&& x.1 == y.1 && x.0 != y.0 ==> text_le(x.0, y.0)
            },
{
    lemma_ranked_sorted::<DeletedEntry>(t);
}

/// Sessions of a command's context `(session, label, count, last_ts)`: newest
/// last run first.
pub proof fn law_sessions_order(t: Seq<(Seq<char>, Seq<char>, i64, i64)>)
    ensures
        forall|i: int, j: int|
            0 <= i < j < ranked::<SessionUsage>(t).len() ==> (#[trigger] ranked::<SessionUsage>(
                t,
            )[i]).3 >= (#[trigger] ranked::<SessionUsage>(t)[j]).3,
{
    lemma_ranked_sorted::<SessionUsage>(t);
}

/// Exit-code tallies `(code, count)`: the never-finished runs first, then by
/// ascending exit code.
pub proof fn law_exit_codes_order(t: Seq<(Option<i64>, i64)>)
    ensures
        forall|i: int, j: int|
            0 <= i < j < ranked::<ExitTally>(t).len() ==> {
                let x = #[trigger] ranked::<ExitTally>(t)[i];
                let y = #[trigger] ranked::<ExitTally>(t)[j];
                &&& y.0 is None ==> x.0 is None
                &&& x.0 is Some && y.0 is Some ==> x.0->0 <= y.0->0
            },
{
    let r = ranked::<ExitTally>(t);
    lemma_ranked_sorted::<ExitTally>(t);
    assert forall|i: int, j: int| 0 <= i < j < r.len() implies {
        let x = #[trigger] r[i];
        let y = #[trigger] r[j];
        &&& y.0 is None ==> x.0 is None
        &&& x.0 is Some && y.0 is Some ==> x.0->0 <= y.0->0
    } by {
        assert(ExitTally::rank_le(r[i], r[j]));
        assert(code_before(r[i].0, r[j].0) || r[i].0 == r[j].0);
    }
}

} // verus!

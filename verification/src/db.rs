//! The history queries and the changes behind each recording operation.
//!
//! Every query reads a `History` (the database's tables) and its contract
//! states the result over the tables' views; every operation that writes
//! returns the row-level changes it issues, stated exactly.

use vstd::prelude::*;

use crate::keyed::{has_key, lookup, Keyed};
use crate::model::{CommandRow, CommandView, History, HistoryView};
use crate::entries::{Counted, DeletedEntry, ErrorEntry, ExitTally, FavEntry, SessionUsage};
use crate::like::{escaped, lemma_escaped_prefix_like, sql_like, starts_with_like};
use crate::present::{current_home, label_of, session_label_with_home};
use crate::rank::{limited, rank_sort, ranked, views};
use crate::text::{chars_of, trim, trimmed};

verus! {

// ---------------------------------------------------------------------------
// Vocabulary of the specifications
// ---------------------------------------------------------------------------

/// The command is soft-deleted.
pub open spec fn deleted_cmd(h: HistoryView, c: Seq<char>) -> bool {
    has_key(h.deleted, c)
}

/// The command is a favorite.
pub open spec fn favorite_cmd(h: HistoryView, c: Seq<char>) -> bool {
    has_key(h.favorites, c)
}

/// The command's note, or the empty text.
pub open spec fn note_of(h: HistoryView, c: Seq<char>) -> Seq<char> {
    match lookup(h.notes, c) {
        Some(n) => n,
        None => Seq::empty(),
    }
}

/// The command has a non-empty note.
pub open spec fn noted_cmd(h: HistoryView, c: Seq<char>) -> bool {
    note_of(h, c).len() > 0
}

/// A row shown by the listing: not soft-deleted, run in `cwd` and exiting with
/// `exit` where those are given.
pub open spec fn listed(h: HistoryView, cwd: Option<Seq<char>>, exit: Option<i64>) -> spec_fn(
    CommandView,
) -> bool {
    |r: CommandView|
        !deleted_cmd(h, r.cmd) && (match cwd {
            Some(d) => r.cwd == d,
            None => true,
        }) && (match exit {
            Some(e) => r.exit_code == Some(e),
            None => true,
        })
}

/// The distinct commands of the rows that `keep` accepts, the most recently
/// run first: each command takes the place of its latest run.
pub open spec fn newest_cmds(rows: Seq<CommandView>, keep: spec_fn(CommandView) -> bool) -> Seq<
    Seq<char>,
>
    decreases rows.len(),
{
    if rows.len() == 0 {
        Seq::empty()
    } else {
        let later = newest_cmds(rows.drop_first(), keep);
        if keep(rows[0]) && !later.contains(rows[0].cmd) {
            later.push(rows[0].cmd)
        } else {
            later
        }
    }
}

pub open spec fn optional_limit<A>(s: Seq<A>, limit: Option<i64>) -> Seq<A> {
    match limit {
        Some(l) => limited(s, l),
        None => s,
    }
}

/// `list_rows`: newest-first distinct commands with their favorite and note
/// markers.
pub open spec fn list_rows_spec(
    h: HistoryView,
    cwd: Option<Seq<char>>,
    exit: Option<i64>,
    limit: Option<i64>,
) -> Seq<(Seq<char>, bool, bool)> {
    optional_limit(newest_cmds(h.commands, listed(h, cwd, exit)), limit).map_values(
        |c: Seq<char>| (c, favorite_cmd(h, c), noted_cmd(h, c)),
    )
}


/// The rows a query counts: only those of command `only` when given, only
/// those whose command is not soft-deleted when `active_only`, only those with
/// a non-empty directory when `named_dir`, only those that finished with a
/// non-zero exit code when `failed_only`.
pub open spec fn row_filter(
    h: HistoryView,
    only: Option<Seq<char>>,
    active_only: bool,
    named_dir: bool,
    failed_only: bool,
) -> spec_fn(CommandView) -> bool {
    |r: CommandView|
        (match only {
            Some(c) => r.cmd == c,
            None => true,
        }) && (active_only ==> !deleted_cmd(h, r.cmd)) && (named_dir ==> r.cwd.len() > 0) && (
        failed_only ==> (match r.exit_code {
            Some(e) => e != 0,
            None => false,
        }))
}

/// Rows whose command is not soft-deleted.
pub open spec fn active(h: HistoryView) -> spec_fn(CommandView) -> bool {
    row_filter(h, None, true, false, false)
}

/// Active rows that finished with a non-zero exit code.
pub open spec fn active_failed(h: HistoryView) -> spec_fn(CommandView) -> bool {
    row_filter(h, None, true, false, true)
}

/// Active rows run in a named (non-empty) directory.
pub open spec fn active_in_dir(h: HistoryView) -> spec_fn(CommandView) -> bool {
    row_filter(h, None, true, true, false)
}

/// All rows of command `c`.
pub open spec fn runs_of(h: HistoryView, c: Seq<char>) -> spec_fn(CommandView) -> bool {
    row_filter(h, Some(c), false, false, false)
}

pub open spec fn by_cmd() -> spec_fn(CommandView) -> Seq<char> {
    |r: CommandView| r.cmd
}

pub open spec fn by_cwd() -> spec_fn(CommandView) -> Seq<char> {
    |r: CommandView| r.cwd
}

/// `COUNT(*)` of the rows accepted by `keep` whose key is `k`.
pub open spec fn count_key<K>(
    rows: Seq<CommandView>,
    keep: spec_fn(CommandView) -> bool,
    key: spec_fn(CommandView) -> K,
    k: K,
) -> int
    decreases rows.len(),
{
    if rows.len() == 0 {
        0
    } else {
        count_key(rows.drop_last(), keep, key, k) + if keep(rows.last()) && key(rows.last()) == k {
            1int
        } else {
            0int
        }
    }
}

/// `COUNT(*)` of the rows accepted by `keep`.
pub open spec fn count_rows(rows: Seq<CommandView>, keep: spec_fn(CommandView) -> bool) -> int
    decreases rows.len(),
{
    if rows.len() == 0 {
        0
    } else {
        count_rows(rows.drop_last(), keep) + if keep(rows.last()) {
            1int
        } else {
            0int
        }
    }
}

/// The distinct keys of the rows accepted by `keep`, in order of first
/// appearance (the groups of a `GROUP BY`).
pub open spec fn distinct_keys<K>(
    rows: Seq<CommandView>,
    keep: spec_fn(CommandView) -> bool,
    key: spec_fn(CommandView) -> K,
) -> Seq<K>
    decreases rows.len(),
{
    if rows.len() == 0 {
        Seq::empty()
    } else {
        let d = distinct_keys(rows.drop_last(), keep, key);
        if keep(rows.last()) && !d.contains(key(rows.last())) {
            d.push(key(rows.last()))
        } else {
            d
        }
    }
}

/// `GROUP BY key` with `COUNT(*)`, over the rows accepted by `keep`.
pub open spec fn tally(
    rows: Seq<CommandView>,
    keep: spec_fn(CommandView) -> bool,
    key: spec_fn(CommandView) -> Seq<char>,
) -> Seq<(Seq<char>, i64)> {
    distinct_keys(rows, keep, key).map_values(
        |k: Seq<char>| (k, count_key(rows, keep, key, k) as i64),
    )
}

pub proof fn lemma_count_key_bounded<K>(
    rows: Seq<CommandView>,
    keep: spec_fn(CommandView) -> bool,
    key: spec_fn(CommandView) -> K,
    k: K,
)
    ensures
        0 <= count_key(rows, keep, key, k) <= rows.len(),
    decreases rows.len(),
{
    if rows.len() > 0 {
        lemma_count_key_bounded(rows.drop_last(), keep, key, k);
    }
}

pub proof fn lemma_count_rows_bounded(rows: Seq<CommandView>, keep: spec_fn(CommandView) -> bool)
    ensures
        0 <= count_rows(rows, keep) <= rows.len(),
    decreases rows.len(),
{
    if rows.len() > 0 {
        lemma_count_rows_bounded(rows.drop_last(), keep);
    }
}

pub proof fn lemma_distinct_keys_bounded<K>(
    rows: Seq<CommandView>,
    keep: spec_fn(CommandView) -> bool,
    key: spec_fn(CommandView) -> K,
)
    ensures
        distinct_keys(rows, keep, key).len() <= rows.len(),
    decreases rows.len(),
{
    if rows.len() > 0 {
        lemma_distinct_keys_bounded(rows.drop_last(), keep, key);
    }
}


/// The elements of `s` that `p` accepts, in order.
pub open spec fn select<A>(s: Seq<A>, p: spec_fn(A) -> bool) -> Seq<A>
    decreases s.len(),
{
    if s.len() == 0 {
        Seq::empty()
    } else {
        let rest = select(s.drop_last(), p);
        if p(s.last()) {
            rest.push(s.last())
        } else {
            rest
        }
    }
}

/// Error-prone commands `(cmd, failures, runs)`: the active commands with at
/// least one run that finished with a non-zero exit code.
pub open spec fn error_entries(h: HistoryView) -> Seq<(Seq<char>, i64, i64)> {
    distinct_keys(h.commands, active_failed(h), by_cmd()).map_values(
        |k: Seq<char>|
            (
                k,
                count_key(h.commands, active_failed(h), by_cmd(), k) as i64,
                count_key(h.commands, active(h), by_cmd(), k) as i64,
            ),
    )
}

/// Number of keyed rows whose key (a command) is not soft-deleted.
pub open spec fn count_live<W>(entries: Seq<(Seq<char>, W)>, h: HistoryView) -> int
    decreases entries.len(),
{
    if entries.len() == 0 {
        0
    } else {
        count_live(entries.drop_last(), h) + if deleted_cmd(h, entries.last().0) {
            0int
        } else {
            1int
        }
    }
}

/// Soft-deleted commands `(cmd, deleted_ts, run_count)`.
pub open spec fn deleted_entries(h: HistoryView) -> Seq<(Seq<char>, i64, i64)> {
    h.deleted.map_values(
        |e: (Seq<char>, i64)| (e.0, e.1, count_rows(h.commands, runs_of(h, e.0)) as i64),
    )
}

/// Favorites that are not soft-deleted, `(cmd, created_ts, has_note)`.
pub open spec fn live_favorites(h: HistoryView) -> Seq<(Seq<char>, i64, bool)> {
    select(h.favorites, |e: (Seq<char>, i64)| !deleted_cmd(h, e.0)).map_values(
        |e: (Seq<char>, i64)| (e.0, e.1, noted_cmd(h, e.0)),
    )
}

/// The favorites view: newest favorite first, each with its note marker.
pub open spec fn fav_rows_spec(h: HistoryView) -> Seq<(Seq<char>, bool)> {
    ranked::<FavEntry>(live_favorites(h)).map_values(|e: (Seq<char>, i64, bool)| (e.0, e.2))
}

/// The rows of a session, oldest first, whose command is not soft-deleted.
pub open spec fn in_session(h: HistoryView, session: Seq<char>) -> spec_fn(CommandView) -> bool {
    |r: CommandView| r.session == session && !deleted_cmd(h, r.cmd)
}

/// A session's timeline: `(cmd, exit_code, start_ts, cwd)` of each row.
pub open spec fn timeline_spec(h: HistoryView, session: Seq<char>) -> Seq<
    (Seq<char>, Option<i64>, i64, Seq<char>),
> {
    select(h.commands, in_session(h, session)).map_values(
        |r: CommandView| (r.cmd, r.exit_code, r.start_ts, r.cwd),
    )
}


pub proof fn lemma_count_key_equals_rows(
    rows: Seq<CommandView>,
    keep: spec_fn(CommandView) -> bool,
    k: Seq<char>,
)
    requires
        forall|r: CommandView| #[trigger] keep(r) ==> r.cmd == k,
    ensures
        count_key(rows, keep, by_cmd(), k) == count_rows(rows, keep),
    decreases rows.len(),
{
    if rows.len() > 0 {
        lemma_count_key_equals_rows(rows.drop_last(), keep, k);
    }
}


pub open spec fn by_exit() -> spec_fn(CommandView) -> Option<i64> {
    |r: CommandView| r.exit_code
}

pub open spec fn by_session() -> spec_fn(CommandView) -> Seq<char> {
    |r: CommandView| r.session
}

/// `GROUP BY exit_code` with `COUNT(*)` over the accepted rows.
pub open spec fn exit_tally(rows: Seq<CommandView>, keep: spec_fn(CommandView) -> bool) -> Seq<
    (Option<i64>, i64),
> {
    distinct_keys(rows, keep, by_exit()).map_values(
        |k: Option<i64>| (k, count_key(rows, keep, by_exit(), k) as i64),
    )
}

/// `MIN(start_ts)` over the accepted rows (`None` when there are none).
pub open spec fn earliest_start(rows: Seq<CommandView>, keep: spec_fn(CommandView) -> bool) -> Option<
    i64,
>
    decreases rows.len(),
{
    if rows.len() == 0 {
        None
    } else {
        let e = earliest_start(rows.drop_last(), keep);
        let t = rows.last().start_ts;
        if keep(rows.last()) {
            match e {
                Some(x) => Some(if t < x {
                    t
                } else {
                    x
                }),
                None => Some(t),
            }
        } else {
            e
        }
    }
}

/// `MAX(start_ts)` over the accepted rows (`None` when there are none).
pub open spec fn latest_start(rows: Seq<CommandView>, keep: spec_fn(CommandView) -> bool) -> Option<
    i64,
>
    decreases rows.len(),
{
    if rows.len() == 0 {
        None
    } else {
        let e = latest_start(rows.drop_last(), keep);
        let t = rows.last().start_ts;
        if keep(rows.last()) {
            match e {
                Some(x) => Some(if t > x {
                    t
                } else {
                    x
                }),
                None => Some(t),
            }
        } else {
            e
        }
    }
}

/// The metadata of one command.
pub struct CommandStatsView {
    pub run_count: i64,
    pub exit_codes: Seq<(Option<i64>, i64)>,
    pub directories: Seq<(Seq<char>, i64)>,
    pub note: Seq<char>,
    pub is_favorite: bool,
    pub first_run: Option<i64>,
    pub last_run: Option<i64>,
}

/// `inspect_any`: `None` for an empty command and for a command that has never
/// run and is neither a favorite nor noted.
pub open spec fn inspect_spec(h: HistoryView, cmd: Seq<char>) -> Option<CommandStatsView> {
    let c = trimmed(cmd);
    let runs = count_rows(h.commands, runs_of(h, c));
    if c.len() == 0 || (runs == 0 && !favorite_cmd(h, c) && note_of(h, c).len() == 0) {
        None
    } else {
        Some(
            CommandStatsView {
                run_count: runs as i64,
                exit_codes: ranked::<ExitTally>(exit_tally(h.commands, runs_of(h, c))),
                directories: ranked::<Counted>(tally(h.commands, runs_of(h, c), by_cwd())),
                note: note_of(h, c),
                is_favorite: favorite_cmd(h, c),
                first_run: earliest_start(h.commands, runs_of(h, c)),
                last_run: latest_start(h.commands, runs_of(h, c)),
            },
        )
    }
}


/// The rows of the usage context of command `c`: its runs, when it is not
/// soft-deleted.
pub open spec fn in_context(h: HistoryView, c: Seq<char>) -> spec_fn(CommandView) -> bool {
    row_filter(h, Some(c), true, false, false)
}

pub open spec fn in_context_of_session(h: HistoryView, c: Seq<char>, s: Seq<char>) -> spec_fn(
    CommandView,
) -> bool {
    |r: CommandView| (in_context(h, c))(r) && r.session == s
}

/// The first directory recorded for a session (empty when none is).
pub open spec fn init_cwd_of(h: HistoryView, s: Seq<char>) -> Seq<char> {
    match lookup(h.sessions, s) {
        Some(v) => v.1,
        None => Seq::empty(),
    }
}

/// The latest start time of `c` in session `s`.
pub open spec fn session_last(h: HistoryView, c: Seq<char>, s: Seq<char>) -> i64 {
    match latest_start(h.commands, in_context_of_session(h, c, s)) {
        Some(t) => t,
        None => 0,
    }
}

/// The sessions in which `c` ran: `(session, label, count, last_ts)`.
pub open spec fn session_usages(h: HistoryView, c: Seq<char>, home: Option<Seq<char>>) -> Seq<
    (Seq<char>, Seq<char>, i64, i64),
> {
    distinct_keys(h.commands, in_context(h, c), by_session()).map_values(
        |s: Seq<char>|
            (
                s,
                label_of(s, init_cwd_of(h, s), home),
                count_key(h.commands, in_context(h, c), by_session(), s) as i64,
                session_last(h, c, s),
            ),
    )
}

/// The rows `search` considers: not soft-deleted, command `LIKE` the escaped
/// prefix followed by `%`.
pub open spec fn prefix_match(h: HistoryView, prefix: Seq<char>) -> spec_fn(CommandView) -> bool {
    |r: CommandView| !deleted_cmd(h, r.cmd) && sql_like(escaped(prefix).push('%'), r.cmd)
}

/// Some run of `c` was in directory `cwd`.
pub open spec fn ran_in(rows: Seq<CommandView>, c: Seq<char>, cwd: Seq<char>) -> bool {
    exists|i: int| 0 <= i < rows.len() && #[trigger] rows[i].cmd == c && rows[i].cwd == cwd
}

/// The search ranking: matching commands run in `cwd` first, then the others;
/// within each part, most recently run first.
pub open spec fn search_order(h: HistoryView, cwd: Seq<char>, prefix: Seq<char>) -> Seq<Seq<char>> {
    let cands = newest_cmds(h.commands, prefix_match(h, prefix));
    select(cands, |c: Seq<char>| ran_in(h.commands, c, cwd)) + select(
        cands,
        |c: Seq<char>| !ran_in(h.commands, c, cwd),
    )
}

pub open spec fn search_spec(h: HistoryView, cwd: Seq<char>, prefix: Seq<char>, offset: i64) -> Option<
    Seq<char>,
> {
    let k = if offset < 0 {
        0
    } else {
        offset as int
    };
    let order = search_order(h, cwd, prefix);
    if k < order.len() {
        Some(order[k])
    } else {
        None
    }
}

// ---------------------------------------------------------------------------
// Helpers
// ---------------------------------------------------------------------------

pub(crate) fn contains_string(v: &Vec<String>, s: &String) -> (r: bool)
    ensures
        r == views(v@).contains(s@),
{
    let mut i: usize = 0;
    while i < v.len()
        invariant
            i <= v.len(),
            forall|j: int| 0 <= j < i ==> #[trigger] views(v@)[j] != s@,
        decreases v.len() - i,
    {
        if v[i] == *s {
            assert(views(v@)[i as int] == s@);
            return true;
        }
        i = i + 1;
    }
    false
}

fn string_from(s: &str) -> (r: String)
    ensures
        r@ == s@,
{
    s.to_string()
}

/// The note stored for a command, or the empty text.
fn note_text(notes: &Keyed<String>, cmd: &String) -> (r: String)
    ensures
        r@ == (match lookup(notes@, cmd@) {
            Some(n) => n,
            None => Seq::empty(),
        }),
{
    match notes.get(cmd) {
        Some(n) => n.clone(),
        None => String::new(),
    }
}

fn has_nonempty_note(notes: &Keyed<String>, cmd: &String) -> (r: bool)
    ensures
        r == (match lookup(notes@, cmd@) {
            Some(n) => n.len() > 0,
            None => false,
        }),
{
    match notes.get(cmd) {
        Some(n) => !n.as_str().is_empty(),
        None => false,
    }
}

/// Whether the listing shows this row.
fn row_listed(h: &History, row: &CommandRow, cwd: &Option<String>, exit: Option<i64>) -> (r: bool)
    ensures
        r == (listed(
            h@,
            match cwd {
                Some(d) => Some(d@),
                None => None,
            },
            exit,
        ))(row@),
{
    if h.deleted().contains(&row.cmd) {
        return false;
    }
    let in_dir = match cwd {
        Some(d) => row.cwd == *d,
        None => true,
    };
    let with_exit = match exit {
        Some(e) => match row.exit_code {
            Some(x) => x == e,
            None => false,
        },
        None => true,
    };
    in_dir && with_exit
}


/// The text a row is grouped by.
fn row_key(row: &CommandRow, cwd_key: bool) -> (r: &String)
    ensures
        r@ == (if cwd_key {
            by_cwd()
        } else {
            by_cmd()
        })(row@),
{
    if cwd_key {
        &row.cwd
    } else {
        &row.cmd
    }
}

/// Whether `row_filter` accepts the row.
fn row_kept(
    h: &History,
    row: &CommandRow,
    only: Option<&String>,
    active_only: bool,
    named_dir: bool,
    failed_only: bool,
) -> (r: bool)
    ensures
        r == (row_filter(
            h@,
            match only {
                Some(c) => Some(c@),
                None => None,
            },
            active_only,
            named_dir,
            failed_only,
        ))(row@),
{
    let of_cmd = match only {
        Some(c) => row.cmd == *c,
        None => true,
    };
    let live = !active_only || !h.deleted().contains(&row.cmd);
    let dir = !named_dir || !row.cwd.as_str().is_empty();
    let failed = !failed_only || match row.exit_code {
        Some(e) => e != 0,
        None => false,
    };
    of_cmd && live && dir && failed
}

/// The distinct grouping texts of the accepted rows, in order of first
/// appearance.
fn distinct_texts(
    h: &History,
    only: Option<&String>,
    active_only: bool,
    named_dir: bool,
    failed_only: bool,
    cwd_key: bool,
) -> (r: Vec<String>)
    ensures
        views(r@) == distinct_keys(
            h@.commands,
            row_filter(
                h@,
                match only {
                    Some(c) => Some(c@),
                    None => None,
                },
                active_only,
                named_dir,
                failed_only,
            ),
            if cwd_key {
                by_cwd()
            } else {
                by_cmd()
            },
        ),
{
    let ghost keep = row_filter(
        h@,
        match only {
            Some(c) => Some(c@),
            None => None,
        },
        active_only,
        named_dir,
        failed_only,
    );
    let ghost key = if cwd_key {
        by_cwd()
    } else {
        by_cmd()
    };
    let rows = h.commands();
    let ghost rv = h@.commands;
    let mut out: Vec<String> = Vec::new();
    let mut i: usize = 0;
    assert(rv.take(0) =~= Seq::<CommandView>::empty());
    while i < rows.len()
        invariant
            i <= rows.len(),
            rv == rows@.map_values(|x: CommandRow| x@),
            rv == h@.commands,
            keep == row_filter(
                h@,
                match only {
                    Some(c) => Some(c@),
                    None => None,
                },
                active_only,
                named_dir,
                failed_only,
            ),
            key == (if cwd_key {
                by_cwd()
            } else {
                by_cmd()
            }),
            views(out@) == distinct_keys(rv.take(i as int), keep, key),
        decreases rows.len() - i,
    {
        let row = &rows[i];
        proof {
            assert(rv.take(i + 1).drop_last() =~= rv.take(i as int));
            assert(rv.take(i + 1).last() == row@);
        }
        if row_kept(h, row, only, active_only, named_dir, failed_only) {
            let k = row_key(row, cwd_key);
            if !contains_string(&out, k) {
                out.push(k.clone());
                assert(views(out@) =~= distinct_keys(rv.take(i as int), keep, key).push(k@));
            }
        }
        i = i + 1;
    }
    assert(rv.take(rows.len() as int) =~= rv);
    out
}

/// How many accepted rows have grouping text `k`.
fn count_text(
    h: &History,
    only: Option<&String>,
    active_only: bool,
    named_dir: bool,
    failed_only: bool,
    cwd_key: bool,
    k: &String,
) -> (r: i64)
    ensures
        r == count_key(
            h@.commands,
            row_filter(
                h@,
                match only {
                    Some(c) => Some(c@),
                    None => None,
                },
                active_only,
                named_dir,
                failed_only,
            ),
            if cwd_key {
                by_cwd()
            } else {
                by_cmd()
            },
            k@,
        ),
{
    let ghost keep = row_filter(
        h@,
        match only {
            Some(c) => Some(c@),
            None => None,
        },
        active_only,
        named_dir,
        failed_only,
    );
    let ghost key = if cwd_key {
        by_cwd()
    } else {
        by_cmd()
    };
    let rows = h.commands();
    let ghost rv = h@.commands;
    let mut n: i64 = 0;
    let mut i: usize = 0;
    assert(rv.take(0) =~= Seq::<CommandView>::empty());
    while i < rows.len()
        invariant
            i <= rows.len(),
            rows.len() < i64::MAX,
            rv == rows@.map_values(|x: CommandRow| x@),
            rv == h@.commands,
            keep == row_filter(
                h@,
                match only {
                    Some(c) => Some(c@),
                    None => None,
                },
                active_only,
                named_dir,
                failed_only,
            ),
            key == (if cwd_key {
                by_cwd()
            } else {
                by_cmd()
            }),
            n == count_key(rv.take(i as int), keep, key, k@),
        decreases rows.len() - i,
    {
        let row = &rows[i];
        proof {
            assert(rv.take(i + 1).drop_last() =~= rv.take(i as int));
            assert(rv.take(i + 1).last() == row@);
            lemma_count_key_bounded(rv.take(i as int), keep, key, k@);
        }
        if row_kept(h, row, only, active_only, named_dir, failed_only) && *row_key(row, cwd_key)
            == *k {
            n = n + 1;
        }
        i = i + 1;
    }
    assert(rv.take(rows.len() as int) =~= rv);
    n
}

/// `GROUP BY` text with `COUNT(*)`, in order of first appearance.
fn tally_texts(
    h: &History,
    only: Option<&String>,
    active_only: bool,
    named_dir: bool,
    failed_only: bool,
    cwd_key: bool,
) -> (r: Vec<Counted>)
    ensures
        views(r@) == tally(
            h@.commands,
            row_filter(
                h@,
                match only {
                    Some(c) => Some(c@),
                    None => None,
                },
                active_only,
                named_dir,
                failed_only,
            ),
            if cwd_key {
                by_cwd()
            } else {
                by_cmd()
            },
        ),
{
    let ghost keep = row_filter(
        h@,
        match only {
            Some(c) => Some(c@),
            None => None,
        },
        active_only,
        named_dir,
        failed_only,
    );
    let ghost key = if cwd_key {
        by_cwd()
    } else {
        by_cmd()
    };
    let keys = distinct_texts(h, only, active_only, named_dir, failed_only, cwd_key);
    let ghost ks = views(keys@);
    let mut out: Vec<Counted> = Vec::new();
    let mut i: usize = 0;
    while i < keys.len()
        invariant
            i <= keys.len(),
            ks == views(keys@),
            ks == distinct_keys(h@.commands, keep, key),
            keep == row_filter(
                h@,
                match only {
                    Some(c) => Some(c@),
                    None => None,
                },
                active_only,
                named_dir,
                failed_only,
            ),
            key == (if cwd_key {
                by_cwd()
            } else {
                by_cmd()
            }),

            views(out@) == ks.take(i as int).map_values(
                |k: Seq<char>| (k, count_key(h@.commands, keep, key, k) as i64),
            ),
        decreases keys.len() - i,
    {
        let n = count_text(h, only, active_only, named_dir, failed_only, cwd_key, &keys[i]);
        let ghost before = views(out@);
        out.push(Counted { text: keys[i].clone(), count: n });
        assert(ks[i as int] == keys@[i as int]@);
        assert(views(out@) =~= before.push((keys@[i as int]@, n)));
        assert(ks.take(i + 1).drop_last() =~= ks.take(i as int));
        assert(views(out@) =~= ks.take(i + 1).map_values(
            |k: Seq<char>| (k, count_key(h@.commands, keep, key, k) as i64),
        ));
        i = i + 1;
    }
    assert(ks.take(keys.len() as int) =~= ks);
    out
}

/// The first `limit` entries (all of them when `limit` is negative or too large).
fn take_limited<T>(v: Vec<T>, limit: i64) -> (r: Vec<T>)
    ensures
        r@ == limited(v@, limit),
{
    if 0 <= limit && (limit as u64) < (v.len() as u64) {
        let mut out = v;
        out.truncate(limit as usize);
        assert(out@ =~= v@.take(limit as int));
        out
    } else {
        v
    }
}

/// `(text, count)` pairs of counted entries.
fn counted_pairs(v: Vec<Counted>) -> (r: Vec<(String, i64)>)
    ensures
        views(r@) == views(v@),
{
    let mut out: Vec<(String, i64)> = Vec::new();
    let mut rest = v;
    let ghost all = views(rest@);
    let mut i: usize = 0;
    while i < rest.len()
        invariant
            i <= rest.len(),
            all == views(rest@),
            views(out@) == all.take(i as int),
        decreases rest.len() - i,
    {
        let e = &rest[i];
        let ghost before = views(out@);
        out.push((e.text.clone(), e.count));
        assert(views(out@) =~= before.push(e@));
        assert(all[i as int] == e@);
        assert(views(out@) =~= all.take(i + 1));
        i = i + 1;
    }
    assert(all.take(rest.len() as int) =~= all);
    out
}


/// Whether some row of command `c` ran in directory `dir`.
fn ran_in_exec(rows: &Vec<CommandRow>, c: &String, dir: &String) -> (r: bool)
    ensures
        r == ran_in(rows@.map_values(|x: CommandRow| x@), c@, dir@),
{
    let ghost rv = rows@.map_values(|x: CommandRow| x@);
    let mut k: usize = 0;
    while k < rows.len()
        invariant
            k <= rows.len(),
            rv == rows@.map_values(|x: CommandRow| x@),
            forall|m: int| 0 <= m < k ==> !(#[trigger] rv[m].cmd == c@ && rv[m].cwd == dir@),
        decreases rows.len() - k,
    {
        assert(rv[k as int] == rows@[k as int]@);
        if rows[k].cmd == *c && rows[k].cwd == *dir {
            assert(rv[k as int].cmd == c@ && rv[k as int].cwd == dir@);
            assert(ran_in(rv, c@, dir@));
            return true;
        }
        k = k + 1;
    }
    false
}

// ---------------------------------------------------------------------------
// Queries
// ---------------------------------------------------------------------------

/// `query --list` with markers: newest-first distinct commands, optionally only
/// those run in `cwd` and/or exiting with `exit`, at most `limit` of them (a
/// negative limit means no limit); each with whether it is a favorite and
/// whether it has a non-empty note. Soft-deleted commands are left out.
pub fn list_rows(h: &History, cwd: Option<&str>, exit: Option<i64>, limit: Option<i64>) -> (r: Vec<
    (String, bool, bool),
>)
    ensures
        views(r@) == list_rows_spec(
            h@,
            match cwd {
                Some(d) => Some(d@),
                None => None,
            },
            exit,
            limit,
        ),
{
    let cwd_s: Option<String> = match cwd {
        Some(d) => Some(string_from(d)),
        None => None,
    };
    let ghost cwd_v = match cwd {
        Some(d) => Some(d@),
        None => None,
    };
    let ghost keep = listed(h@, cwd_v, exit);
    let rows = h.commands();
    let ghost rv = rows@.map_values(|x: CommandRow| x@);
    let n = rows.len();
    let mut cmds: Vec<String> = Vec::new();
    let mut i = n;
    assert(rv.subrange(n as int, n as int) =~= Seq::<CommandView>::empty());
    while i > 0
        invariant
            i <= n == rows.len(),
            rv == rows@.map_values(|x: CommandRow| x@),
            rv == h@.commands,
            keep == listed(h@, cwd_v, exit),
            cwd_v == (match cwd_s {
                Some(d) => Some(d@),
                None => None::<Seq<char>>,
            }),
            views(cmds@) == newest_cmds(rv.subrange(i as int, n as int), keep),
        decreases i,
    {
        let row = &rows[i - 1];
        let ghost sub = rv.subrange(i - 1, n as int);
        assert(sub.drop_first() =~= rv.subrange(i as int, n as int));
        assert(sub[0] == row@);
        if row_listed(h, row, &cwd_s, exit) && !contains_string(&cmds, &row.cmd) {
            cmds.push(row.cmd.clone());
            assert(views(cmds@) =~= newest_cmds(rv.subrange(i as int, n as int), keep).push(
                row.cmd@,
            ));
        }
        i = i - 1;
    }
    assert(rv.subrange(0, n as int) =~= rv);
    let ghost all = views(cmds@);
    let take: usize = match limit {
        Some(l) => if 0 <= l && (l as u64) < (cmds.len() as u64) {
            l as usize
        } else {
            cmds.len()
        },
        None => cmds.len(),
    };
    let ghost shown = optional_limit(all, limit);
    assert(shown =~= all.take(take as int));
    let mut out: Vec<(String, bool, bool)> = Vec::new();
    let mut j: usize = 0;
    while j < take
        invariant
            j <= take <= cmds.len(),
            views(cmds@) == all,
            shown == all.take(take as int),
            views(out@) == shown.take(j as int).map_values(
                |c: Seq<char>| (c, favorite_cmd(h@, c), noted_cmd(h@, c)),
            ),
        decreases take - j,
    {
        let c = &cmds[j];
        let fav = h.favorites().contains(c);
        let note = has_nonempty_note(h.notes(), c);
        let ghost before = views(out@);
        out.push((c.clone(), fav, note));
        proof {
            assert(note == noted_cmd(h@, c@));
            assert(fav == favorite_cmd(h@, c@));
            assert(views(out@) =~= before.push((c@, fav, note)));
            assert(all[j as int] == c@);
            assert(shown.take(j + 1).drop_last() =~= shown.take(j as int));
        }
        assert(views(out@) =~= shown.take(j + 1).map_values(
            |c: Seq<char>| (c, favorite_cmd(h@, c), noted_cmd(h@, c)),
        ));
        j = j + 1;
    }
    assert(shown.take(take as int) =~= shown);
    out
}


/// Most-run commands `(cmd, run_count)`, most runs first (ties by command),
/// at most `limit` of them (a negative limit means all). Soft-deleted commands
/// are left out.
pub fn stats_top_commands(h: &History, limit: i64) -> (r: Vec<(String, i64)>)
    ensures
        views(r@) == limited(ranked::<Counted>(tally(h@.commands, active(h@), by_cmd())), limit),
{
    let groups = tally_texts(h, None, true, false, false, false);
    let sorted = rank_sort(groups);
    counted_pairs(take_limited(sorted, limit))
}

/// Most-used directories `(cwd, count)`, most rows first (ties by directory),
/// at most `limit` of them. Rows with an empty directory (imports) and rows of
/// soft-deleted commands are left out.
pub fn stats_top_dirs(h: &History, limit: i64) -> (r: Vec<(String, i64)>)
    ensures
        views(r@) == limited(
            ranked::<Counted>(tally(h@.commands, active_in_dir(h@), by_cwd())),
            limit,
        ),
{
    let groups = tally_texts(h, None, true, true, false, true);
    let sorted = rank_sort(groups);
    counted_pairs(take_limited(sorted, limit))
}


/// Commands with the most failures `(cmd, failures, total_runs)`: only those
/// with at least one non-zero (non-null) exit code, most failures first, then
/// most runs, then by command; at most `limit` of them. Soft-deleted commands
/// are left out.
pub fn stats_error_prone(h: &History, limit: i64) -> (r: Vec<(String, i64, i64)>)
    ensures
        views(r@) == limited(ranked::<ErrorEntry>(error_entries(h@)), limit),
{
    let keys = distinct_texts(h, None, true, false, true, false);
    let ghost ks = views(keys@);
    let ghost all = error_entries(h@);
    let mut groups: Vec<ErrorEntry> = Vec::new();
    let mut i: usize = 0;
    while i < keys.len()
        invariant
            i <= keys.len(),
            ks == views(keys@),
            ks == distinct_keys(h@.commands, active_failed(h@), by_cmd()),
            all == error_entries(h@),
            views(groups@) == all.take(i as int),
        decreases keys.len() - i,
    {
        let k = &keys[i];
        let failures = count_text(h, None, true, false, true, false, k);
        let runs = count_text(h, None, true, false, false, false, k);
        let ghost before = views(groups@);
        groups.push(ErrorEntry { cmd: k.clone(), failures, runs });
        assert(ks[i as int] == k@);
        assert(views(groups@) =~= before.push((k@, failures, runs)));
        assert(views(groups@) =~= all.take(i + 1));
        i = i + 1;
    }
    assert(all.take(keys.len() as int) =~= all);
    let sorted = take_limited(rank_sort(groups), limit);
    let mut out: Vec<(String, i64, i64)> = Vec::new();
    let ghost sv = views(sorted@);
    let mut j: usize = 0;
    while j < sorted.len()
        invariant
            j <= sorted.len(),
            sv == views(sorted@),
            views(out@) == sv.take(j as int),
        decreases sorted.len() - j,
    {
        let e = &sorted[j];
        let ghost before = views(out@);
        out.push((e.cmd.clone(), e.failures, e.runs));
        assert(views(out@) =~= before.push(e@));
        assert(sv[j as int] == e@);
        assert(views(out@) =~= sv.take(j + 1));
        j = j + 1;
    }
    assert(sv.take(sorted.len() as int) =~= sv);
    out
}

/// Global totals; every count leaves soft-deleted commands out.
pub struct Totals {
    pub distinct_commands: i64,
    pub total_runs: i64,
    pub favorites: i64,
    pub notes: i64,
}

fn count_live_rows<V: View>(t: &Keyed<V>, h: &History) -> (r: usize)
    ensures
        r == count_live(t@, h@),
{
    let mut n: usize = 0;
    let mut i: usize = 0;
    assert(t@.take(0) =~= Seq::<(Seq<char>, V::V)>::empty());
    while i < t.len()
        invariant
            i <= t@.len(),
            0 <= n <= i,
            n == count_live(t@.take(i as int), h@),
        decreases t@.len() - i,
    {
        assert(t@.take(i + 1).drop_last() =~= t@.take(i as int));
        if !h.deleted().contains(t.key_at(i)) {
            n = n + 1;
        }
        i = i + 1;
    }
    assert(t@.take(t@.len() as int) =~= t@);
    n
}

/// Totals: distinct commands, runs, favorites and notes, all excluding
/// soft-deleted commands.
pub fn stats_totals(h: &History) -> (r: Totals)
    ensures
        r.distinct_commands == distinct_keys(h@.commands, active(h@), by_cmd()).len(),
        r.total_runs == count_rows(h@.commands, active(h@)),
        r.favorites == count_live(h@.favorites, h@) as i64,
        r.notes == count_live(h@.notes, h@) as i64,
{
    let keys = distinct_texts(h, None, true, false, false, false);
    proof {
        lemma_distinct_keys_bounded(h@.commands, active(h@), by_cmd());
    }
    let rows = h.commands();
    let ghost rv = h@.commands;
    let ghost keep = active(h@);
    let mut runs: i64 = 0;
    let mut i: usize = 0;
    assert(rv.take(0) =~= Seq::<CommandView>::empty());
    while i < rows.len()
        invariant
            i <= rows.len() < i64::MAX,
            rv == rows@.map_values(|x: CommandRow| x@),
            rv == h@.commands,
            keep == active(h@),
            runs == count_rows(rv.take(i as int), keep),
        decreases rows.len() - i,
    {
        proof {
            assert(rv.take(i + 1).drop_last() =~= rv.take(i as int));
            lemma_count_rows_bounded(rv.take(i as int), keep);
        }
        if row_kept(h, &rows[i], None, true, false, false) {
            runs = runs + 1;
        }
        i = i + 1;
    }
    assert(rv.take(rows.len() as int) =~= rv);
    let favorites = count_live_rows(h.favorites(), h) as i64;
    let notes = count_live_rows(h.notes(), h) as i64;
    Totals { distinct_commands: keys.len() as i64, total_runs: runs, favorites, notes }
}


/// `query --list`: newest-first distinct commands, with the filters and limit
/// of `list_rows`.
pub fn list(h: &History, cwd: Option<&str>, exit: Option<i64>, limit: Option<i64>) -> (r: Vec<
    String,
>)
    ensures
        views(r@) == list_rows_spec(
            h@,
            match cwd {
                Some(d) => Some(d@),
                None => None,
            },
            exit,
            limit,
        ).map_values(|e: (Seq<char>, bool, bool)| e.0),
{
    let rows = list_rows(h, cwd, exit, limit);
    let ghost rv = views(rows@);
    let mut out: Vec<String> = Vec::new();
    let mut i: usize = 0;
    while i < rows.len()
        invariant
            i <= rows.len(),
            rv == views(rows@),
            views(out@) == rv.take(i as int).map_values(|e: (Seq<char>, bool, bool)| e.0),
        decreases rows.len() - i,
    {
        let ghost before = views(out@);
        out.push(rows[i].0.clone());
        assert(views(out@) =~= before.push(rows@[i as int].0@));
        assert(rv[i as int] == rows@[i as int]@);
        assert(rv.take(i + 1).drop_last() =~= rv.take(i as int));
        assert(views(out@) =~= rv.take(i + 1).map_values(|e: (Seq<char>, bool, bool)| e.0));
        i = i + 1;
    }
    assert(rv.take(rows.len() as int) =~= rv);
    out
}

/// The favorites view: favorites that are not soft-deleted, newest first (ties
/// by command), each with whether it has a non-empty note.
pub fn fav_rows(h: &History) -> (r: Vec<(String, bool)>)
    ensures
        views(r@) == fav_rows_spec(h@),
{
    let favs = h.favorites();
    let ghost fv = h@.favorites;
    let ghost keep = |e: (Seq<char>, i64)| !deleted_cmd(h@, e.0);
    let ghost shape = |e: (Seq<char>, i64)| (e.0, e.1, noted_cmd(h@, e.0));
    let mut entries: Vec<FavEntry> = Vec::new();
    let mut i: usize = 0;
    assert(fv.take(0) =~= Seq::<(Seq<char>, i64)>::empty());
    while i < favs.len()
        invariant
            i <= favs@.len(),
            fv == favs@,
            fv == h@.favorites,
            keep == (|e: (Seq<char>, i64)| !deleted_cmd(h@, e.0)),
            shape == (|e: (Seq<char>, i64)| (e.0, e.1, noted_cmd(h@, e.0))),
            views(entries@) == select(fv.take(i as int), keep).map_values(shape),
        decreases fv.len() - i,
    {
        assert(fv.take(i + 1).drop_last() =~= fv.take(i as int));
        assert(fv.take(i + 1).last() == fv[i as int]);
        let cmd = favs.key_at(i);
        if !h.deleted().contains(cmd) {
            let noted = has_nonempty_note(h.notes(), cmd);
            let ghost before = views(entries@);
            entries.push(FavEntry { cmd: cmd.clone(), created_ts: *favs.value_at(i), noted });
            assert(views(entries@) =~= before.push(shape(fv[i as int])));
            assert(select(fv.take(i + 1), keep) =~= select(fv.take(i as int), keep).push(
                fv[i as int],
            ));
            assert(views(entries@) =~= select(fv.take(i + 1), keep).map_values(shape));
        } else {
            assert(select(fv.take(i + 1), keep) =~= select(fv.take(i as int), keep));
        }
        i = i + 1;
    }
    assert(fv.take(fv.len() as int) =~= fv);
    assert(views(entries@) =~= live_favorites(h@));
    let sorted = rank_sort(entries);
    let ghost sv = views(sorted@);
    let mut out: Vec<(String, bool)> = Vec::new();
    let mut j: usize = 0;
    while j < sorted.len()
        invariant
            j <= sorted.len(),
            sv == views(sorted@),
            views(out@) == sv.take(j as int).map_values(|e: (Seq<char>, i64, bool)| (e.0, e.2)),
        decreases sorted.len() - j,
    {
        let e = &sorted[j];
        let ghost before = views(out@);
        out.push((e.cmd.clone(), e.noted));
        assert(views(out@) =~= before.push((e.cmd@, e.noted)));
        assert(sv[j as int] == e@);
        assert(sv.take(j + 1).drop_last() =~= sv.take(j as int));
        assert(views(out@) =~= sv.take(j + 1).map_values(
            |e: (Seq<char>, i64, bool)| (e.0, e.2),
        ));
        j = j + 1;
    }
    assert(sv.take(sorted.len() as int) =~= sv);
    out
}

/// Favorites, newest first (the commands of `fav_rows`).
pub fn fav_list(h: &History) -> (r: Vec<String>)
    ensures
        views(r@) == fav_rows_spec(h@).map_values(|e: (Seq<char>, bool)| e.0),
{
    let rows = fav_rows(h);
    let ghost rv = views(rows@);
    let mut out: Vec<String> = Vec::new();
    let mut i: usize = 0;
    while i < rows.len()
        invariant
            i <= rows.len(),
            rv == views(rows@),
            views(out@) == rv.take(i as int).map_values(|e: (Seq<char>, bool)| e.0),
        decreases rows.len() - i,
    {
        let ghost before = views(out@);
        out.push(rows[i].0.clone());
        assert(views(out@) =~= before.push(rows@[i as int].0@));
        assert(rv[i as int] == rows@[i as int]@);
        assert(rv.take(i + 1).drop_last() =~= rv.take(i as int));
        assert(views(out@) =~= rv.take(i + 1).map_values(|e: (Seq<char>, bool)| e.0));
        i = i + 1;
    }
    assert(rv.take(rows.len() as int) =~= rv);
    out
}

/// A command's note (the command is trimmed), or the empty text if it has none.
pub fn note_get(h: &History, cmd: &str) -> (r: String)
    ensures
        r@ == note_of(h@, trimmed(cmd@)),
{
    let c = trim(cmd);
    note_text(h.notes(), &c)
}

/// Whether the (trimmed) command is soft-deleted.
pub fn is_deleted(h: &History, cmd: &str) -> (r: bool)
    ensures
        r == deleted_cmd(h@, trimmed(cmd@)),
{
    let c = trim(cmd);
    h.deleted().contains(&c)
}

/// The deletion time of a soft-deleted (trimmed) command.
pub fn deleted_ts(h: &History, cmd: &str) -> (r: Option<i64>)
    ensures
        r == lookup(h@.deleted, trimmed(cmd@)),
{
    let c = trim(cmd);
    match h.deleted().get(&c) {
        Some(t) => Some(*t),
        None => None,
    }
}

/// Soft-deleted commands `(cmd, deleted_ts, run_count)`, newest deletion first
/// (ties by command); the run count includes every stored run.
pub fn deleted_list(h: &History) -> (r: Vec<(String, i64, i64)>)
    ensures
        views(r@) == ranked::<DeletedEntry>(deleted_entries(h@)),
{
    let del = h.deleted();
    let ghost dv = h@.deleted;
    let ghost all = deleted_entries(h@);
    let mut entries: Vec<DeletedEntry> = Vec::new();
    let mut i: usize = 0;
    while i < del.len()
        invariant
            i <= dv.len(),
            dv == del@,
            dv == h@.deleted,
            all == deleted_entries(h@),
            views(entries@) == all.take(i as int),
        decreases dv.len() - i,
    {
        let cmd = del.key_at(i);
        let runs = count_text(h, Some(cmd), false, false, false, false, cmd);
        proof {
            lemma_count_key_equals_rows(h@.commands, runs_of(h@, cmd@), cmd@);
        }
        let ghost before = views(entries@);
        entries.push(DeletedEntry { cmd: cmd.clone(), deleted_ts: *del.value_at(i), runs });
        assert(views(entries@) =~= before.push((cmd@, dv[i as int].1, runs)));
        assert(views(entries@) =~= all.take(i + 1));
        i = i + 1;
    }
    assert(all.take(dv.len() as int) =~= all);
    let sorted = rank_sort(entries);
    let ghost sv = views(sorted@);
    let mut out: Vec<(String, i64, i64)> = Vec::new();
    let mut j: usize = 0;
    while j < sorted.len()
        invariant
            j <= sorted.len(),
            sv == views(sorted@),
            views(out@) == sv.take(j as int),
        decreases sorted.len() - j,
    {
        let e = &sorted[j];
        let ghost before = views(out@);
        out.push((e.cmd.clone(), e.deleted_ts, e.runs));
        assert(views(out@) =~= before.push(e@));
        assert(sv[j as int] == e@);
        assert(views(out@) =~= sv.take(j + 1));
        j = j + 1;
    }
    assert(sv.take(sorted.len() as int) =~= sv);
    out
}

/// One command in a session's timeline.
pub struct TimelineRow {
    pub cmd: String,
    pub exit_code: Option<i64>,
    pub start_ts: i64,
    /// The directory it ran in.
    pub cwd: String,
}

impl View for TimelineRow {
    type V = (Seq<char>, Option<i64>, i64, Seq<char>);

    open spec fn view(&self) -> (Seq<char>, Option<i64>, i64, Seq<char>) {
        (self.cmd@, self.exit_code, self.start_ts, self.cwd@)
    }
}

/// Every command of a session, oldest first, leaving out soft-deleted commands.
pub fn session_timeline(h: &History, session: &str) -> (r: Vec<TimelineRow>)
    ensures
        views(r@) == timeline_spec(h@, session@),
{
    let s = string_from(session);
    let rows = h.commands();
    let ghost rv = h@.commands;
    let ghost keep = in_session(h@, session@);
    let ghost shape = |r: CommandView| (r.cmd, r.exit_code, r.start_ts, r.cwd);
    let mut out: Vec<TimelineRow> = Vec::new();
    let mut i: usize = 0;
    assert(rv.take(0) =~= Seq::<CommandView>::empty());
    while i < rows.len()
        invariant
            i <= rows.len(),
            rv == rows@.map_values(|x: CommandRow| x@),
            rv == h@.commands,
            s@ == session@,
            keep == in_session(h@, session@),
            shape == (|r: CommandView| (r.cmd, r.exit_code, r.start_ts, r.cwd)),
            views(out@) == select(rv.take(i as int), keep).map_values(shape),
        decreases rows.len() - i,
    {
        let row = &rows[i];
        assert(rv.take(i + 1).drop_last() =~= rv.take(i as int));
        assert(rv.take(i + 1).last() == row@);
        if row.session == s && !h.deleted().contains(&row.cmd) {
            let ghost before = views(out@);
            out.push(
                TimelineRow {
                    cmd: row.cmd.clone(),
                    exit_code: row.exit_code,
                    start_ts: row.start_ts,
                    cwd: row.cwd.clone(),
                },
            );
            assert(views(out@) =~= before.push(shape(row@)));
            assert(select(rv.take(i + 1), keep) =~= select(rv.take(i as int), keep).push(row@));
            assert(views(out@) =~= select(rv.take(i + 1), keep).map_values(shape));
        } else {
            assert(select(rv.take(i + 1), keep) =~= select(rv.take(i as int), keep));
        }
        i = i + 1;
    }
    assert(rv.take(rows.len() as int) =~= rv);
    out
}


/// Full metadata for a single command.
pub struct CommandStats {
    pub run_count: i64,
    /// (exit_code, count); `None` code = command never finalized (no exit recorded).
    pub exit_codes: Vec<(Option<i64>, i64)>,
    /// (cwd, count), most-used directory first.
    pub directories: Vec<(String, i64)>,
    pub note: String,
    pub is_favorite: bool,
    pub first_run: Option<i64>,
    pub last_run: Option<i64>,
}

impl View for CommandStats {
    type V = CommandStatsView;

    open spec fn view(&self) -> CommandStatsView {
        CommandStatsView {
            run_count: self.run_count,
            exit_codes: views(self.exit_codes@),
            directories: views(self.directories@),
            note: self.note@,
            is_favorite: self.is_favorite,
            first_run: self.first_run,
            last_run: self.last_run,
        }
    }
}

fn contains_code(v: &Vec<Option<i64>>, c: Option<i64>) -> (r: bool)
    ensures
        r == v@.contains(c),
{
    let mut i: usize = 0;
    while i < v.len()
        invariant
            i <= v.len(),
            forall|j: int| 0 <= j < i ==> #[trigger] v@[j] != c,
        decreases v.len() - i,
    {
        let same = match (v[i], c) {
            (None, None) => true,
            (Some(x), Some(y)) => x == y,
            _ => false,
        };
        if same {
            assert(v@[i as int] == c);
            return true;
        }
        i = i + 1;
    }
    false
}

/// The exit-code tally of the runs of `c`, before ordering.
fn exit_tally_of(h: &History, c: &String) -> (r: Vec<ExitTally>)
    ensures
        views(r@) == exit_tally(h@.commands, runs_of(h@, c@)),
{
    let ghost keep = runs_of(h@, c@);
    let rows = h.commands();
    let ghost rv = h@.commands;
    let mut codes: Vec<Option<i64>> = Vec::new();
    let mut i: usize = 0;
    assert(rv.take(0) =~= Seq::<CommandView>::empty());
    while i < rows.len()
        invariant
            i <= rows.len(),
            rv == rows@.map_values(|x: CommandRow| x@),
            rv == h@.commands,
            keep == runs_of(h@, c@),
            codes@ == distinct_keys(rv.take(i as int), keep, by_exit()),
        decreases rows.len() - i,
    {
        let row = &rows[i];
        assert(rv.take(i + 1).drop_last() =~= rv.take(i as int));
        assert(rv.take(i + 1).last() == row@);
        if row.cmd == *c && !contains_code(&codes, row.exit_code) {
            codes.push(row.exit_code);
        }
        i = i + 1;
    }
    assert(rv.take(rows.len() as int) =~= rv);
    let ghost ks = codes@;
    let mut out: Vec<ExitTally> = Vec::new();
    let mut j: usize = 0;
    while j < codes.len()
        invariant
            j <= codes.len(),
            ks == codes@,
            ks == distinct_keys(rv, keep, by_exit()),
            rv == rows@.map_values(|x: CommandRow| x@),
            rv == h@.commands,
            rows.len() < i64::MAX,
            keep == runs_of(h@, c@),
            views(out@) == ks.take(j as int).map_values(
                |k: Option<i64>| (k, count_key(rv, keep, by_exit(), k) as i64),
            ),
        decreases codes.len() - j,
    {
        let code = codes[j];
        let mut n: i64 = 0;
        let mut i: usize = 0;
        assert(rv.take(0) =~= Seq::<CommandView>::empty());
        while i < rows.len()
            invariant
                i <= rows.len() < i64::MAX,
                rv == rows@.map_values(|x: CommandRow| x@),
                keep == runs_of(h@, c@),
                n == count_key(rv.take(i as int), keep, by_exit(), code),
            decreases rows.len() - i,
        {
            let row = &rows[i];
            proof {
                assert(rv.take(i + 1).drop_last() =~= rv.take(i as int));
                assert(rv.take(i + 1).last() == row@);
                lemma_count_key_bounded(rv.take(i as int), keep, by_exit(), code);
            }
            let same = match (row.exit_code, code) {
                (None, None) => true,
                (Some(x), Some(y)) => x == y,
                _ => false,
            };
            if row.cmd == *c && same {
                n = n + 1;
            }
            i = i + 1;
        }
        assert(rv.take(rows.len() as int) =~= rv);
        let ghost before = views(out@);
        out.push(ExitTally { code, count: n });
        assert(views(out@) =~= before.push((code, n)));
        assert(ks.take(j + 1).drop_last() =~= ks.take(j as int));
        assert(views(out@) =~= ks.take(j + 1).map_values(
            |k: Option<i64>| (k, count_key(rv, keep, by_exit(), k) as i64),
        ));
        j = j + 1;
    }
    assert(ks.take(codes.len() as int) =~= ks);
    out
}

/// `MIN(start_ts)` and `MAX(start_ts)` over the runs of `c`.
fn run_span(h: &History, c: &String) -> (r: (Option<i64>, Option<i64>))
    ensures
        r.0 == earliest_start(h@.commands, runs_of(h@, c@)),
        r.1 == latest_start(h@.commands, runs_of(h@, c@)),
{
    let ghost keep = runs_of(h@, c@);
    let rows = h.commands();
    let ghost rv = h@.commands;
    let mut first: Option<i64> = None;
    let mut last: Option<i64> = None;
    let mut i: usize = 0;
    assert(rv.take(0) =~= Seq::<CommandView>::empty());
    while i < rows.len()
        invariant
            i <= rows.len(),
            rv == rows@.map_values(|x: CommandRow| x@),
            keep == runs_of(h@, c@),
            first == earliest_start(rv.take(i as int), keep),
            last == latest_start(rv.take(i as int), keep),
        decreases rows.len() - i,
    {
        let row = &rows[i];
        assert(rv.take(i + 1).drop_last() =~= rv.take(i as int));
        assert(rv.take(i + 1).last() == row@);
        if row.cmd == *c {
            let t = row.start_ts;
            first = match first {
                Some(x) => Some(if t < x {
                    t
                } else {
                    x
                }),
                None => Some(t),
            };
            last = match last {
                Some(x) => Some(if t > x {
                    t
                } else {
                    x
                }),
                None => Some(t),
            };
        }
        i = i + 1;
    }
    assert(rv.take(rows.len() as int) =~= rv);
    (first, last)
}

/// All metadata for one command (trimmed), soft-deleted or not: run count,
/// exit-code tally (ascending code, never-finished first), directory tally
/// (most-used first), note, favorite flag, first and last start time. `None`
/// for an empty command and for one that has never run and is neither a
/// favorite nor noted.
pub fn inspect_any(h: &History, cmd: &str) -> (r: Option<CommandStats>)
    ensures
        match r {
            Some(s) => inspect_spec(h@, cmd@) == Some(s@),
            None => inspect_spec(h@, cmd@) is None,
        },
{
    let c = trim(cmd);
    if c.as_str().is_empty() {
        return None;
    }
    let run_count = count_text(h, Some(&c), false, false, false, false, &c);
    proof {
        lemma_count_key_equals_rows(h@.commands, runs_of(h@, c@), c@);
    }
    let is_favorite = h.favorites().contains(&c);
    let note = note_text(h.notes(), &c);
    if run_count == 0 && !is_favorite && note.as_str().is_empty() {
        return None;
    }
    let exit_codes = counted_codes(rank_sort(exit_tally_of(h, &c)));
    let directories = counted_pairs(rank_sort(tally_texts(h, Some(&c), false, false, false, true)));
    let (first_run, last_run) = run_span(h, &c);
    let stats = CommandStats {
        run_count,
        exit_codes,
        directories,
        note,
        is_favorite,
        first_run,
        last_run,
    };
    assert(stats@ == inspect_spec(h@, cmd@)->0);
    Some(stats)
}

/// `(code, count)` pairs of exit tallies.
fn counted_codes(v: Vec<ExitTally>) -> (r: Vec<(Option<i64>, i64)>)
    ensures
        views(r@) == views(v@),
{
    let mut out: Vec<(Option<i64>, i64)> = Vec::new();
    let ghost all = views(v@);
    let mut i: usize = 0;
    while i < v.len()
        invariant
            i <= v.len(),
            all == views(v@),
            views(out@) == all.take(i as int),
        decreases v.len() - i,
    {
        let e = &v[i];
        let ghost before = views(out@);
        out.push((e.code, e.count));
        assert(views(out@) =~= before.push(e@));
        assert(all[i as int] == e@);
        assert(views(out@) =~= all.take(i + 1));
        i = i + 1;
    }
    assert(all.take(v.len() as int) =~= all);
    out
}

/// Like `inspect_any`, but a soft-deleted command is treated as unknown.
pub fn inspect(h: &History, cmd: &str) -> (r: Option<CommandStats>)
    ensures
        match r {
            Some(s) => !deleted_cmd(h@, trimmed(cmd@)) && inspect_spec(h@, cmd@) == Some(s@),
            None => deleted_cmd(h@, trimmed(cmd@)) || inspect_spec(h@, cmd@) is None,
        },
{
    if is_deleted(h, cmd) {
        return None;
    }
    inspect_any(h, cmd)
}


/// The sessions of `c`'s context, before ordering.
fn session_usages_of(h: &History, c: &String, home: Option<&str>) -> (r: Vec<SessionUsage>)
    ensures
        views(r@) == session_usages(h@, c@, match home {
            Some(x) => Some(x@),
            None => None,
        }),
{
    let ghost keep = in_context(h@, c@);
    let ghost hv = match home {
        Some(x) => Some(x@),
        None => None,
    };
    let rows = h.commands();
    let ghost rv = h@.commands;
    let mut ids: Vec<String> = Vec::new();
    let mut i: usize = 0;
    assert(rv.take(0) =~= Seq::<CommandView>::empty());
    while i < rows.len()
        invariant
            i <= rows.len(),
            rv == rows@.map_values(|x: CommandRow| x@),
            rv == h@.commands,
            keep == in_context(h@, c@),
            views(ids@) == distinct_keys(rv.take(i as int), keep, by_session()),
        decreases rows.len() - i,
    {
        let row = &rows[i];
        assert(rv.take(i + 1).drop_last() =~= rv.take(i as int));
        assert(rv.take(i + 1).last() == row@);
        if row_kept(h, row, Some(c), true, false, false) && !contains_string(&ids, &row.session) {
            ids.push(row.session.clone());
            assert(views(ids@) =~= distinct_keys(rv.take(i as int), keep, by_session()).push(
                row.session@,
            ));
        }
        i = i + 1;
    }
    assert(rv.take(rows.len() as int) =~= rv);
    let ghost ks = views(ids@);
    let ghost all = session_usages(h@, c@, hv);
    let live = !h.deleted().contains(c);
    let mut out: Vec<SessionUsage> = Vec::new();
    let mut j: usize = 0;
    while j < ids.len()
        invariant
            j <= ids.len(),
            ks == views(ids@),
            ks == distinct_keys(rv, keep, by_session()),
            rv == rows@.map_values(|x: CommandRow| x@),
            rv == h@.commands,
            rows.len() < i64::MAX,
            keep == in_context(h@, c@),
            live == !deleted_cmd(h@, c@),
            all == session_usages(h@, c@, hv),
            hv == (match home {
                Some(x) => Some(x@),
                None => None::<Seq<char>>,
            }),
            views(out@) == all.take(j as int),
        decreases ids.len() - j,
    {
        let sid = &ids[j];
        let ghost in_s = in_context_of_session(h@, c@, sid@);
        let mut n: i64 = 0;
        let mut last: Option<i64> = None;
        let mut i: usize = 0;
        assert(rv.take(0) =~= Seq::<CommandView>::empty());
        while i < rows.len()
            invariant
                i <= rows.len() < i64::MAX,
                rv == rows@.map_values(|x: CommandRow| x@),
                keep == in_context(h@, c@),
                in_s == in_context_of_session(h@, c@, sid@),
                live == !deleted_cmd(h@, c@),
                n == count_key(rv.take(i as int), keep, by_session(), sid@),
                last == latest_start(rv.take(i as int), in_s),
            decreases rows.len() - i,
        {
            let row = &rows[i];
            proof {
                assert(rv.take(i + 1).drop_last() =~= rv.take(i as int));
                assert(rv.take(i + 1).last() == row@);
                lemma_count_key_bounded(rv.take(i as int), keep, by_session(), sid@);
            }
            if live && row.cmd == *c && row.session == *sid {
                n = n + 1;
                let t = row.start_ts;
                last = match last {
                    Some(x) => Some(if t > x {
                        t
                    } else {
                        x
                    }),
                    None => Some(t),
                };
            }
            i = i + 1;
        }
        assert(rv.take(rows.len() as int) =~= rv);
        let init_cwd = match h.sessions().get(sid) {
            Some(v) => v.1.clone(),
            None => String::new(),
        };
        let label = session_label_with_home(sid.as_str(), init_cwd.as_str(), home);
        let last_ts = match last {
            Some(t) => t,
            None => 0,
        };
        let ghost before = views(out@);
        let u = SessionUsage { session: sid.clone(), label, count: n, last_ts };
        let ghost uv = u@;
        out.push(u);
        assert(ks[j as int] == sid@);
        assert(views(out@) =~= before.push(uv));
        assert(views(out@) =~= all.take(j + 1));
        j = j + 1;
    }
    assert(all.take(ids.len() as int) =~= all);
    out
}

/// The sessions in which the (trimmed) command ran, when it is not
/// soft-deleted: each with its label (given the home directory), how often the
/// command ran there and its latest start, latest first.
pub fn context_sessions_with_home(h: &History, cmd: &str, home: Option<&str>) -> (r: Vec<
    SessionUsage,
>)
    ensures
        views(r@) == ranked::<SessionUsage>(
            session_usages(
                h@,
                trimmed(cmd@),
                match home {
                    Some(x) => Some(x@),
                    None => None,
                },
            ),
        ),
{
    let c = trim(cmd);
    rank_sort(session_usages_of(h, &c, home))
}

/// Distinct sessions in which `cmd` ran (active-only), each with occurrence
/// count and most-recent run, newest first; labels use the current home
/// directory.
pub fn context_sessions(h: &History, cmd: &str) -> (r: Vec<SessionUsage>)
    ensures
        exists|home: Option<Seq<char>>|
            views(r@) == ranked::<SessionUsage>(session_usages(h@, trimmed(cmd@), home)),
{
    let home = current_home();
    let r = match &home {
        Some(x) => context_sessions_with_home(h, cmd, Some(x.as_str())),
        None => context_sessions_with_home(h, cmd, None),
    };
    let ghost hv = match home {
        Some(x) => Some(x@),
        None => None,
    };
    assert(views(r@) == ranked::<SessionUsage>(session_usages(h@, trimmed(cmd@), hv)));
    r
}

/// cwd-aware prefix search for the Up-arrow widget: among the commands that
/// start with `prefix` (literally; ASCII letters regardless of case) and are
/// not soft-deleted, those run in `cwd` come first, then the others, each part
/// most recent first; returns the match at position `offset` (negative counts
/// as 0), if any.
pub fn search(h: &History, cwd: &str, prefix: &str, offset: i64) -> (r: Option<String>)
    ensures
        match r {
            Some(c) => search_spec(h@, cwd@, prefix@, offset) == Some(c@),
            None => search_spec(h@, cwd@, prefix@, offset) is None,
        },
{
    let pv = chars_of(prefix);
    let dir = string_from(cwd);
    let ghost keep = prefix_match(h@, prefix@);
    let rows = h.commands();
    let ghost rv = h@.commands;
    let n = rows.len();
    let mut cands: Vec<String> = Vec::new();
    let mut i = n;
    assert(rv.subrange(n as int, n as int) =~= Seq::<CommandView>::empty());
    while i > 0
        invariant
            i <= n == rows.len(),
            rv == rows@.map_values(|x: CommandRow| x@),
            rv == h@.commands,
            pv@ == prefix@,
            keep == prefix_match(h@, prefix@),
            views(cands@) == newest_cmds(rv.subrange(i as int, n as int), keep),
        decreases i,
    {
        let row = &rows[i - 1];
        let ghost sub = rv.subrange(i - 1, n as int);
        assert(sub.drop_first() =~= rv.subrange(i as int, n as int));
        assert(sub[0] == row@);
        let cv = chars_of(row.cmd.as_str());
        proof {
            lemma_escaped_prefix_like(prefix@, row.cmd@);
        }
        if !h.deleted().contains(&row.cmd) && starts_with_like(&pv, &cv) && !contains_string(
            &cands,
            &row.cmd,
        ) {
            cands.push(row.cmd.clone());
            assert(views(cands@) =~= newest_cmds(rv.subrange(i as int, n as int), keep).push(
                row.cmd@,
            ));
        }
        i = i - 1;
    }
    assert(rv.subrange(0, n as int) =~= rv);
    let ghost cs = views(cands@);
    let ghost here = |c: Seq<char>| ran_in(rv, c, cwd@);
    let ghost away = |c: Seq<char>| !ran_in(rv, c, cwd@);
    let mut near: Vec<String> = Vec::new();
    let mut far: Vec<String> = Vec::new();
    let mut j: usize = 0;
    assert(cs.take(0) =~= Seq::<Seq<char>>::empty());
    while j < cands.len()
        invariant
            j <= cands.len(),
            cs == views(cands@),
            rv == rows@.map_values(|x: CommandRow| x@),
            rv == h@.commands,
            dir@ == cwd@,
            here == (|c: Seq<char>| ran_in(rv, c, cwd@)),
            away == (|c: Seq<char>| !ran_in(rv, c, cwd@)),
            views(near@) == select(cs.take(j as int), here),
            views(far@) == select(cs.take(j as int), away),
            near.len() + far.len() == j,
        decreases cands.len() - j,
    {
        let c = &cands[j];
        assert(cs.take(j + 1).drop_last() =~= cs.take(j as int));
        assert(cs.take(j + 1).last() == c@);
        let found = ran_in_exec(rows, c, &dir);
        assert(found == here(c@));
        assert(found == !away(c@));
        if found {
            let ghost before = views(near@);
            near.push(c.clone());
            assert(views(near@) =~= before.push(c@));
        } else {
            let ghost before = views(far@);
            far.push(c.clone());
            assert(views(far@) =~= before.push(c@));
        }
        j = j + 1;
    }
    assert(cs.take(cands.len() as int) =~= cs);
    let k: usize = if offset < 0 {
        0
    } else if (offset as u64) < (cands.len() as u64) {
        offset as usize
    } else {
        cands.len()
    };
    let ghost order = search_order(h@, cwd@, prefix@);
    assert(order =~= views(near@) + views(far@));
    if k < near.len() {
        assert(order[k as int] == views(near@)[k as int]);
        Some(near[k].clone())
    } else if k - near.len() < far.len() {
        assert(order[k as int] == views(far@)[k - near.len()]);
        Some(far[k - near.len()].clone())
    } else {
        None
    }
}

} // verus!

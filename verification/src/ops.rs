//! The operations that write: each returns the row-level changes it issues
//! (to be applied in order), stated exactly. The `_at` forms take the current
//! time; the plain forms read the clock.

use vstd::prelude::*;

use crate::clock::now;
use crate::config::{ignored_by, is_ignored, IgnorePattern};
use crate::counting::law_prune_matches_fit;
use crate::db::{active, by_cmd, favorite_cmd, select, stats_top_commands, tally};
use crate::entries::Counted;
use crate::keyed::lookup;
use crate::model::{change_views, Change, ChangeView, History, HistoryView};
use crate::present::counts_fit;
use crate::rank::{ranked, views};
use crate::text::{chars_of, is_blank, trim, trim_end, trim_right, trimmed};
use crate::zsh::{parse_zsh_history, zsh_commands};

verus! {

/// preexec: a pending command for the session, unless the trimmed command is
/// empty or ignored. The session's first directory and time are recorded on
/// its first recorded command.
pub open spec fn start_changes(
    session: Seq<char>,
    cwd: Seq<char>,
    cmd: Seq<char>,
    ignore: Seq<Seq<char>>,
    now: i64,
) -> Seq<ChangeView> {
    let c = trimmed(cmd);
    if c.len() == 0 || ignored_by(ignore, c) {
        Seq::empty()
    } else {
        seq![
            ChangeView::InsertSessionOrIgnore { session, started_ts: now, init_cwd: cwd },
            ChangeView::UpsertPending { session, cmd: c, cwd, start_ts: now },
        ]
    }
}

/// precmd: the session's pending command becomes a finished command with its
/// exit code, and leaves `pending`; nothing when none is pending.
pub open spec fn end_changes(h: HistoryView, session: Seq<char>, exit_code: i64, now: i64) -> Seq<
    ChangeView,
> {
    match lookup(h.pending, session) {
        Some(p) => seq![
            ChangeView::InsertCommand {
                cmd: p.0,
                cwd: p.1,
                exit_code: Some(exit_code),
                start_ts: p.2,
                end_ts: Some(now),
                session,
            },
            ChangeView::DeletePending { session },
        ],
        None => Seq::empty(),
    }
}

pub open spec fn fav_add_changes(cmd: Seq<char>, now: i64) -> Seq<ChangeView> {
    let c = trimmed(cmd);
    if c.len() == 0 {
        Seq::empty()
    } else {
        seq![ChangeView::InsertFavoriteOrIgnore { cmd: c, created_ts: now }]
    }
}

pub open spec fn fav_remove_changes(cmd: Seq<char>) -> Seq<ChangeView> {
    seq![ChangeView::DeleteFavorite { cmd: trimmed(cmd) }]
}

/// The new favorite state and the changes of `fav_toggle`.
pub open spec fn fav_toggle_spec(h: HistoryView, cmd: Seq<char>, now: i64) -> (bool, Seq<ChangeView>) {
    let c = trimmed(cmd);
    if c.len() == 0 {
        (false, Seq::empty())
    } else if favorite_cmd(h, c) {
        (false, fav_remove_changes(c))
    } else {
        (true, fav_add_changes(c, now))
    }
}

pub open spec fn note_set_changes(cmd: Seq<char>, note: Seq<char>) -> Seq<ChangeView> {
    let c = trimmed(cmd);
    if c.len() == 0 {
        Seq::empty()
    } else if trimmed(note).len() == 0 {
        seq![ChangeView::DeleteNote { cmd: c }]
    } else {
        seq![ChangeView::UpsertNote { cmd: c, note }]
    }
}

pub open spec fn soft_delete_changes(cmd: Seq<char>, now: i64) -> Seq<ChangeView> {
    let c = trimmed(cmd);
    if c.len() == 0 {
        Seq::empty()
    } else {
        seq![ChangeView::ReplaceDeleted { cmd: c, deleted_ts: now }]
    }
}

pub open spec fn restore_changes(cmd: Seq<char>) -> Seq<ChangeView> {
    seq![ChangeView::DeleteDeleted { cmd: trimmed(cmd) }]
}

/// The active commands with their run counts, most runs first (ties by
/// command), that the ignore list matches.
pub open spec fn prune_matches(h: HistoryView, ignore: Seq<Seq<char>>) -> Seq<(Seq<char>, i64)> {
    select(
        ranked::<Counted>(tally(h.commands, active(h), by_cmd())),
        |e: (Seq<char>, i64)| ignored_by(ignore, e.0),
    )
}

/// Soft-deletes of each matched command, in order.
pub open spec fn prune_changes(matched: Seq<(Seq<char>, i64)>, now: i64) -> Seq<ChangeView>
    decreases matched.len(),
{
    if matched.len() == 0 {
        Seq::empty()
    } else {
        prune_changes(matched.drop_last(), now) + soft_delete_changes(matched.last().0, now)
    }
}

/// The inserts of imported commands.
pub open spec fn import_changes(cmds: Seq<Seq<char>>, now: i64) -> Seq<ChangeView> {
    cmds.map_values(|c: Seq<char>| import_change(c, now))
}

/// The changes of `prune ignore`: soft-deletes of the matches when `apply`,
/// nothing otherwise (a dry run).
pub open spec fn prune_apply_changes(
    h: HistoryView,
    ignore: Seq<Seq<char>>,
    apply: bool,
    now: i64,
) -> Seq<ChangeView> {
    if apply {
        prune_changes(prune_matches(h, ignore), now)
    } else {
        Seq::empty()
    }
}

/// An imported command: no directory, no exit code, session `import`.
pub open spec fn import_change(cmd: Seq<char>, now: i64) -> ChangeView {
    ChangeView::InsertCommand {
        cmd,
        cwd: Seq::empty(),
        exit_code: None,
        start_ts: now,
        end_ts: None,
        session: "import"@,
    }
}

/// preexec at time `now`.
pub fn start_at(session: &str, cwd: &str, cmd: &str, ignore: &[IgnorePattern], now: i64) -> (r: Vec<
    Change,
>)
    ensures
        change_views(r@) == start_changes(session@, cwd@, cmd@, views(ignore@), now),
{
    let c = trim(cmd);
    if c.as_str().is_empty() {
        assert(change_views(Seq::<Change>::empty()) =~= Seq::<ChangeView>::empty());
        return Vec::new();
    }
    if is_ignored(c.as_str(), ignore) {
        assert(change_views(Seq::<Change>::empty()) =~= Seq::<ChangeView>::empty());
        return Vec::new();
    }
    let mut r: Vec<Change> = Vec::new();
    r.push(
        Change::InsertSessionOrIgnore {
            session: session.to_string(),
            started_ts: now,
            init_cwd: cwd.to_string(),
        },
    );
    r.push(
        Change::UpsertPending {
            session: session.to_string(),
            cmd: c,
            cwd: cwd.to_string(),
            start_ts: now,
        },
    );
    assert(change_views(r@) =~= start_changes(session@, cwd@, cmd@, views(ignore@), now));
    r
}

/// preexec: record a pending command for this session (at the current time).
/// A command matching any ignore pattern is silently not recorded.
pub fn start(session: &str, cwd: &str, cmd: &str, ignore: &[IgnorePattern]) -> (r: Vec<Change>)
    ensures
        exists|t: i64| change_views(r@) == start_changes(session@, cwd@, cmd@, views(ignore@), t),
{
    let t = now();
    start_at(session, cwd, cmd, ignore, t)
}

/// precmd at time `now`.
pub fn end_at(h: &History, session: &str, exit_code: i64, now: i64) -> (r: Vec<Change>)
    ensures
        change_views(r@) == end_changes(h@, session@, exit_code, now),
{
    let s = session.to_string();
    match h.pending().get(&s) {
        Some(p) => {
            let mut r: Vec<Change> = Vec::new();
            r.push(
                Change::InsertCommand {
                    cmd: p.0.clone(),
                    cwd: p.1.clone(),
                    exit_code: Some(exit_code),
                    start_ts: p.2,
                    end_ts: Some(now),
                    session: s.clone(),
                },
            );
            r.push(Change::DeletePending { session: s });
            assert(change_views(r@) =~= end_changes(h@, session@, exit_code, now));
            r
        },
        None => {
            assert(change_views(Seq::<Change>::empty()) =~= Seq::<ChangeView>::empty());
            Vec::new()
        },
    }
}

/// precmd: finalize the pending command for this session with its exit code.
pub fn end(h: &History, session: &str, exit_code: i64) -> (r: Vec<Change>)
    ensures
        exists|t: i64| change_views(r@) == end_changes(h@, session@, exit_code, t),
{
    let t = now();
    end_at(h, session, exit_code, t)
}

fn one(c: Change) -> (r: Vec<Change>)
    ensures
        r@ == seq![c],
{
    let mut r: Vec<Change> = Vec::new();
    r.push(c);
    assert(r@ =~= seq![c]);
    r
}

fn none() -> (r: Vec<Change>)
    ensures
        change_views(r@) == Seq::<ChangeView>::empty(),
{
    let r: Vec<Change> = Vec::new();
    assert(change_views(r@) =~= Seq::<ChangeView>::empty());
    r
}

/// Add a command to favorites at time `now` (idempotent). Trims; ignores empty.
pub fn fav_add_at(cmd: &str, now: i64) -> (r: Vec<Change>)
    ensures
        change_views(r@) == fav_add_changes(cmd@, now),
{
    let c = trim(cmd);
    if c.as_str().is_empty() {
        return none();
    }
    let r = one(Change::InsertFavoriteOrIgnore { cmd: c, created_ts: now });
    assert(change_views(r@) =~= fav_add_changes(cmd@, now));
    r
}

/// Add a command to favorites (idempotent). Trims; ignores empty.
pub fn fav_add(cmd: &str) -> (r: Vec<Change>)
    ensures
        exists|t: i64| change_views(r@) == fav_add_changes(cmd@, t),
{
    let t = now();
    fav_add_at(cmd, t)
}

/// Remove a (trimmed) command from favorites.
pub fn fav_remove(cmd: &str) -> (r: Vec<Change>)
    ensures
        change_views(r@) == fav_remove_changes(cmd@),
{
    let r = one(Change::DeleteFavorite { cmd: trim(cmd) });
    assert(change_views(r@) =~= fav_remove_changes(cmd@));
    r
}

/// Toggle a command's favorite state at time `now`. Returns the new state
/// (true = now starred) and the changes.
pub fn fav_toggle_at(h: &History, cmd: &str, now: i64) -> (r: (bool, Vec<Change>))
    ensures
        (r.0, change_views(r.1@)) == fav_toggle_spec(h@, cmd@, now),
{
    let c = trim(cmd);
    if c.as_str().is_empty() {
        return (false, none());
    }
    if h.favorites().contains(&c) {
        let r = one(Change::DeleteFavorite { cmd: c });
        proof {
            crate::text::lemma_trimmed_idempotent(cmd@);
        }
        assert(change_views(r@) =~= fav_remove_changes(trimmed(cmd@)));
        (false, r)
    } else {
        let r = one(Change::InsertFavoriteOrIgnore { cmd: c, created_ts: now });
        proof {
            crate::text::lemma_trimmed_idempotent(cmd@);
        }
        assert(change_views(r@) =~= fav_add_changes(trimmed(cmd@), now));
        (true, r)
    }
}

/// Toggle a command's favorite state. Returns the new state (true = now starred).
pub fn fav_toggle(h: &History, cmd: &str) -> (r: (bool, Vec<Change>))
    ensures
        exists|t: i64| (r.0, change_views(r.1@)) == fav_toggle_spec(h@, cmd@, t),
{
    let t = now();
    fav_toggle_at(h, cmd, t)
}

/// Set (or clear) a command's note. An empty (all-whitespace) note deletes the
/// row; the note is otherwise stored as given. Trims cmd; ignores an empty cmd.
pub fn note_set(cmd: &str, note: &str) -> (r: Vec<Change>)
    ensures
        change_views(r@) == note_set_changes(cmd@, note@),
{
    let c = trim(cmd);
    if c.as_str().is_empty() {
        return none();
    }
    let r = if is_blank(note) {
        one(Change::DeleteNote { cmd: c })
    } else {
        one(Change::UpsertNote { cmd: c, note: note.to_string() })
    };
    assert(change_views(r@) =~= note_set_changes(cmd@, note@));
    r
}

/// Save the text an editor left for a command's note: trailing whitespace is
/// dropped, and a note left blank clears it.
pub fn note_edit_changes(cmd: &str, edited: &str) -> (r: Vec<Change>)
    ensures
        change_views(r@) == note_set_changes(cmd@, trim_end(edited@)),
{
    let note = trim_right(edited);
    note_set(cmd, note.as_str())
}

/// Soft-delete a command at time `now`: hide it from every user-facing view.
/// Nothing is physically removed.
pub fn soft_delete_at(cmd: &str, now: i64) -> (r: Vec<Change>)
    ensures
        change_views(r@) == soft_delete_changes(cmd@, now),
{
    let c = trim(cmd);
    if c.as_str().is_empty() {
        return none();
    }
    let r = one(Change::ReplaceDeleted { cmd: c, deleted_ts: now });
    assert(change_views(r@) =~= soft_delete_changes(cmd@, now));
    r
}

/// Soft-delete a command: mark it hidden from all user-facing views.
pub fn soft_delete(cmd: &str) -> (r: Vec<Change>)
    ensures
        exists|t: i64| change_views(r@) == soft_delete_changes(cmd@, t),
{
    let t = now();
    soft_delete_at(cmd, t)
}

/// Un-delete a soft-deleted (trimmed) command so it reappears in normal views.
pub fn restore(cmd: &str) -> (r: Vec<Change>)
    ensures
        change_views(r@) == restore_changes(cmd@),
{
    let r = one(Change::DeleteDeleted { cmd: trim(cmd) });
    assert(change_views(r@) =~= restore_changes(cmd@));
    r
}

/// `prune ignore` at time `now`: the active commands matching the ignore list
/// with their run counts (most runs first, ties by command); when `apply`, the
/// soft-deletes of each match, else no change.
pub fn prune_ignored_at(h: &History, ignore: &[IgnorePattern], apply: bool, now: i64) -> (r: (
    Vec<(String, i64)>,
    Vec<Change>,
))
    ensures
        views(r.0@) == prune_matches(h@, views(ignore@)),
        counts_fit(views(r.0@)),
        change_views(r.1@) == prune_apply_changes(h@, views(ignore@), apply, now),
{
    proof {
        use_type_invariant(h);
        law_prune_matches_fit(h@, views(ignore@));
    }
    let all = stats_top_commands(h, -1);
    let ghost av = views(all@);
    let ghost pats = views(ignore@);
    let ghost keep = |e: (Seq<char>, i64)| ignored_by(pats, e.0);
    let mut matched: Vec<(String, i64)> = Vec::new();
    let mut changes: Vec<Change> = Vec::new();
    let mut i: usize = 0;
    assert(av.take(0) =~= Seq::<(Seq<char>, i64)>::empty());
    assert(change_views(changes@) =~= Seq::<ChangeView>::empty());
    while i < all.len()
        invariant
            i <= all.len(),
            av == views(all@),
            pats == views(ignore@),
            keep == (|e: (Seq<char>, i64)| ignored_by(pats, e.0)),
            views(matched@) == select(av.take(i as int), keep),
            change_views(changes@) == (if apply {
                prune_changes(select(av.take(i as int), keep), now)
            } else {
                Seq::<ChangeView>::empty()
            }),
        decreases all.len() - i,
    {
        let e = &all[i];
        assert(av.take(i + 1).drop_last() =~= av.take(i as int));
        assert(av.take(i + 1).last() == e@);
        let ghost sel = select(av.take(i as int), keep);
        if is_ignored(e.0.as_str(), ignore) {
            assert(select(av.take(i + 1), keep) =~= sel.push(e@));
            assert(sel.push(e@).drop_last() =~= sel);
            assert(prune_changes(sel.push(e@), now) == prune_changes(sel, now) + soft_delete_changes(
                e@.0,
                now,
            ));
            let ghost before = views(matched@);
            matched.push((e.0.clone(), e.1));
            assert(views(matched@) =~= before.push(e@));
            if apply {
                let ghost cb = change_views(changes@);
                let mut more = soft_delete_at(e.0.as_str(), now);
                changes.append(&mut more);
                assert(change_views(changes@) =~= cb + soft_delete_changes(e.0@, now));
            }
        } else {
            assert(select(av.take(i + 1), keep) =~= sel);
        }
        i = i + 1;
    }
    assert(av.take(all.len() as int) =~= av);
    (matched, changes)
}

/// `prune ignore`: commands (excluding already-deleted) matching the ignore
/// list, as (cmd, run_count). When `apply`, each match is soft-deleted.
pub fn prune_ignored(h: &History, ignore: &[IgnorePattern], apply: bool) -> (r: (
    Vec<(String, i64)>,
    Vec<Change>,
))
    ensures
        views(r.0@) == prune_matches(h@, views(ignore@)),
        counts_fit(views(r.0@)),
        exists|t: i64|
            change_views(r.1@) == #[trigger] prune_apply_changes(h@, views(ignore@), apply, t),
{
    let t = now();
    prune_ignored_at(h, ignore, apply, t)
}

/// Import commands from a zsh history file's text at time `now` (best-effort):
/// the number of commands and one insert per command.
pub fn import_zsh_at(content: &str, now: i64) -> (r: (usize, Vec<Change>))
    ensures
        r.0 == zsh_commands(content@).len(),
        change_views(r.1@) == import_changes(zsh_commands(content@), now),
{
    let v = chars_of(content);
    let cmds = parse_zsh_history(&v);
    let ghost cv = views(cmds@);
    let mut changes: Vec<Change> = Vec::new();
    let mut i: usize = 0;
    while i < cmds.len()
        invariant
            i <= cmds.len(),
            cv == views(cmds@),
            change_views(changes@) == cv.take(i as int).map_values(
                |c: Seq<char>| import_change(c, now),
            ),
        decreases cmds.len() - i,
    {
        let ghost before = change_views(changes@);
        let c = Change::InsertCommand {
            cmd: cmds[i].clone(),
            cwd: String::new(),
            exit_code: None,
            start_ts: now,
            end_ts: None,
            session: String::from_str("import"),
        };
        let ghost chv = c@;
        changes.push(c);
        assert(change_views(changes@) =~= before.push(chv));
        assert(cv[i as int] == cmds@[i as int]@);
        assert(cv.take(i + 1).drop_last() =~= cv.take(i as int));
        assert(change_views(changes@) =~= cv.take(i + 1).map_values(
            |c: Seq<char>| import_change(c, now),
        ));
        i = i + 1;
    }
    assert(cv.take(cmds.len() as int) =~= cv);
    assert(change_views(changes@) =~= import_changes(zsh_commands(content@), now));
    (cmds.len(), changes)
}

/// Import commands from a zsh history file's text (best-effort).
pub fn import_zsh(content: &str) -> (r: (usize, Vec<Change>))
    ensures
        r.0 == zsh_commands(content@).len(),
        exists|t: i64| change_views(r.1@) == #[trigger] import_changes(zsh_commands(content@), t),
{
    let t = now();
    import_zsh_at(content, t)
}

} // verus!

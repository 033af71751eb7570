//! Human-facing text: session labels, the picker's marker column and rows, and
//! the session timeline shown in the preview pane.

use vstd::prelude::*;

use crate::db::{fav_rows, fav_rows_spec, list_rows, list_rows_spec, CommandStats, TimelineRow};
use crate::entries::SessionUsage;
use crate::model::History;
use crate::rank::views;
use crate::text::{
    chars_of, count_string, decimal, decimal_string, is_white, push_char, string_of_range, trim,
    trim_end, trim_start, trimmed,
};

verus! {

/// The current user's home directory, as text (`None` when it cannot be
/// determined or is not valid UTF-8).
#[verifier::external_body]
fn home_dir_text() -> (r: Option<String>) {
    match dirs::home_dir() {
        Some(p) => p.to_str().map(|s| s.to_string()),
        None => None,
    }
}

pub open spec fn starts_with(s: Seq<char>, pre: Seq<char>) -> bool {
    pre.len() <= s.len() && s.subrange(0, pre.len() as int) == pre
}

/// A path with the home directory written `~`.
pub open spec fn abbreviated(path: Seq<char>, home: Option<Seq<char>>) -> Seq<char> {
    match home {
        Some(hm) => if path == hm {
            seq!['~']
        } else if starts_with(path, hm.push('/')) {
            seq!['~', '/'] + path.subrange(hm.len() + 1int, path.len() as int)
        } else {
            path
        },
        None => path,
    }
}

/// A session's label: its first directory (home-abbreviated), or the session id
/// when no directory was recorded.
pub open spec fn label_of(session: Seq<char>, init_cwd: Seq<char>, home: Option<Seq<char>>) -> Seq<
    char,
> {
    if init_cwd.len() == 0 {
        session
    } else {
        abbreviated(init_cwd, home)
    }
}

fn has_prefix(s: &Vec<char>, pre: &Vec<char>) -> (r: bool)
    ensures
        r == starts_with(s@, pre@),
{
    if pre.len() > s.len() {
        return false;
    }
    let mut i: usize = 0;
    while i < pre.len()
        invariant
            i <= pre.len() <= s.len(),
            forall|j: int| 0 <= j < i ==> s@[j] == pre@[j],
        decreases pre.len() - i,
    {
        if s[i] != pre[i] {
            assert(s@.subrange(0, pre@.len() as int)[i as int] != pre@[i as int]);
            return false;
        }
        i = i + 1;
    }
    assert(s@.subrange(0, pre@.len() as int) =~= pre@);
    true
}

/// Abbreviates a home-prefixed path with `~`, given the home directory.
pub fn abbreviate_path(path: &str, home: Option<&str>) -> (r: String)
    ensures
        r@ == abbreviated(path@, match home {
            Some(x) => Some(x@),
            None => None,
        }),
{
    match home {
        None => path.to_string(),
        Some(hm) => {
            let p = chars_of(path);
            let mut hv = chars_of(hm);
            let path_s = path.to_string();
            let home_s = hm.to_string();
            if path_s == home_s {
                let mut r = String::new();
                push_char(&mut r, '~');
                assert(r@ =~= seq!['~']);
                return r;
            }
            hv.push('/');
            if has_prefix(&p, &hv) {
                let mut r = String::new();
                push_char(&mut r, '~');
                push_char(&mut r, '/');
                let rest = string_of_range(&p, hv.len(), p.len());
                r.append(rest.as_str());
                assert(r@ =~= seq!['~', '/'] + p@.subrange(hm@.len() + 1int, p@.len() as int));
                r
            } else {
                path_s
            }
        },
    }
}

/// Abbreviates a home-prefixed path with `~` (the home directory is looked up).
pub fn abbreviate_home(path: &str) -> (r: String)
    ensures
        exists|home: Option<Seq<char>>| r@ == abbreviated(path@, home),
{
    let home = home_dir_text();
    let r = match &home {
        Some(h) => abbreviate_path(path, Some(h.as_str())),
        None => abbreviate_path(path, None),
    };
    let ghost hv = match home {
        Some(h) => Some(h@),
        None => None,
    };
    assert(r@ == abbreviated(path@, hv));
    r
}

/// A session's label given the home directory.
pub fn session_label_with_home(session: &str, init_cwd: &str, home: Option<&str>) -> (r: String)
    ensures
        r@ == label_of(session@, init_cwd@, match home {
            Some(x) => Some(x@),
            None => None,
        }),
{
    if init_cwd.is_empty() {
        session.to_string()
    } else {
        abbreviate_path(init_cwd, home)
    }
}

/// Human label for a session: its initial working directory (home-abbreviated),
/// falling back to the raw session id when no directory is recorded.
pub fn session_label(session: &str, init_cwd: &str) -> (r: String)
    ensures
        init_cwd@.len() == 0 ==> r@ == session@,
        exists|home: Option<Seq<char>>| r@ == label_of(session@, init_cwd@, home),
{
    let home = home_dir_text();
    let r = match &home {
        Some(h) => session_label_with_home(session, init_cwd, Some(h.as_str())),
        None => session_label_with_home(session, init_cwd, None),
    };
    let ghost hv = match home {
        Some(h) => Some(h@),
        None => None,
    };
    assert(r@ == label_of(session@, init_cwd@, hv));
    r
}

/// The home directory, for callers that label many sessions at once.
pub fn current_home() -> (r: Option<String>) {
    home_dir_text()
}

/// The marker column: a star for a favorite, a pencil for a note, both if both.
pub open spec fn marker_text(is_fav: bool, has_note: bool) -> Seq<char> {
    (if is_fav {
        seq!['\u{2605}']
    } else {
        Seq::empty()
    }) + (if has_note {
        seq!['\u{270E}']
    } else {
        Seq::empty()
    })
}

/// Builds the marker column: star for favorite, pencil for note (both if applicable).
pub fn marker(is_fav: bool, has_note: bool) -> (r: String)
    ensures
        r@ == marker_text(is_fav, has_note),
{
    let mut m = String::new();
    if is_fav {
        push_char(&mut m, '\u{2605}');
    }
    if has_note {
        push_char(&mut m, '\u{270E}');
    }
    assert(m@ =~= marker_text(is_fav, has_note));
    m
}

/// The picker's view mode.
pub enum PickerMode {
    History,
    Favorites,
}

/// The mode named by the state file's content: favorites when the trimmed
/// content is `favorites`, history otherwise (also when there is no file).
pub open spec fn mode_of(state: Option<Seq<char>>) -> PickerMode {
    match state {
        Some(s) => if trimmed(s) == "favorites"@ {
            PickerMode::Favorites
        } else {
            PickerMode::History
        },
        None => PickerMode::History,
    }
}

pub fn picker_mode(state: Option<&str>) -> (r: PickerMode)
    ensures
        r == mode_of(match state {
            Some(s) => Some(s@),
            None => None,
        }),
{
    match state {
        Some(s) => {
            let t = trim(s);
            let fav = String::from_str("favorites");
            if t == fav {
                PickerMode::Favorites
            } else {
                PickerMode::History
            }
        },
        None => PickerMode::History,
    }
}

/// The mode the toggle switches to.
pub open spec fn other_mode(mode: PickerMode) -> PickerMode {
    match mode {
        PickerMode::History => PickerMode::Favorites,
        PickerMode::Favorites => PickerMode::History,
    }
}

/// The text the state file holds for a mode.
pub open spec fn mode_text(mode: PickerMode) -> Seq<char> {
    match mode {
        PickerMode::History => "history"@,
        PickerMode::Favorites => "favorites"@,
    }
}

/// The other mode.
pub fn toggled(mode: PickerMode) -> (r: PickerMode)
    ensures
        r == other_mode(mode),
{
    match mode {
        PickerMode::History => PickerMode::Favorites,
        PickerMode::Favorites => PickerMode::History,
    }
}

/// The text the state file holds for a mode.
pub fn mode_name(mode: &PickerMode) -> (r: String)
    ensures
        r@ == mode_text(*mode),
{
    match mode {
        PickerMode::History => String::from_str("history"),
        PickerMode::Favorites => String::from_str("favorites"),
    }
}

/// One picker row: `<marker>\t<cmd>`.
pub open spec fn picker_line(is_fav: bool, has_note: bool, cmd: Seq<char>) -> Seq<char> {
    marker_text(is_fav, has_note) + seq!['\t'] + cmd
}

pub open spec fn picker_lines(h: crate::model::HistoryView, mode: PickerMode) -> Seq<Seq<char>> {
    match mode {
        PickerMode::Favorites => fav_rows_spec(h).map_values(
            |e: (Seq<char>, bool)| picker_line(true, e.1, e.0),
        ),
        PickerMode::History => list_rows_spec(h, None, None, None).map_values(
            |e: (Seq<char>, bool, bool)| picker_line(e.1, e.2, e.0),
        ),
    }
}

fn picker_row(is_fav: bool, has_note: bool, cmd: &String) -> (r: String)
    ensures
        r@ == picker_line(is_fav, has_note, cmd@),
{
    let mut line = marker(is_fav, has_note);
    push_char(&mut line, '\t');
    line.append(cmd.as_str());
    line
}

/// The rows the picker shows in a mode: favorites (newest first) or the
/// deduplicated history (newest first), each as `<marker>\t<cmd>`.
pub fn picker_rows(h: &History, mode: &PickerMode) -> (r: Vec<String>)
    ensures
        views(r@) == picker_lines(h@, *mode),
{
    let mut out: Vec<String> = Vec::new();
    match mode {
        PickerMode::Favorites => {
            let rows = fav_rows(h);
            let ghost rv = views(rows@);
            let mut i: usize = 0;
            while i < rows.len()
                invariant
                    i <= rows.len(),
                    rv == views(rows@),
                    views(out@) == rv.take(i as int).map_values(
                        |e: (Seq<char>, bool)| picker_line(true, e.1, e.0),
                    ),
                decreases rows.len() - i,
            {
                let ghost before = views(out@);
                let line = picker_row(true, rows[i].1, &rows[i].0);
                let ghost lv = line@;
                out.push(line);
                assert(views(out@) =~= before.push(lv));
                assert(rv[i as int] == rows@[i as int]@);
                assert(rv.take(i + 1).drop_last() =~= rv.take(i as int));
                assert(views(out@) =~= rv.take(i + 1).map_values(
                    |e: (Seq<char>, bool)| picker_line(true, e.1, e.0),
                ));
                i = i + 1;
            }
            assert(rv.take(rows.len() as int) =~= rv);
        },
        PickerMode::History => {
            let rows = list_rows(h, None, None, None);
            let ghost rv = views(rows@);
            let mut i: usize = 0;
            while i < rows.len()
                invariant
                    i <= rows.len(),
                    rv == views(rows@),
                    views(out@) == rv.take(i as int).map_values(
                        |e: (Seq<char>, bool, bool)| picker_line(e.1, e.2, e.0),
                    ),
                decreases rows.len() - i,
            {
                let ghost before = views(out@);
                let line = picker_row(rows[i].1, rows[i].2, &rows[i].0);
                let ghost lv = line@;
                out.push(line);
                assert(views(out@) =~= before.push(lv));
                assert(rv[i as int] == rows@[i as int]@);
                assert(rv.take(i + 1).drop_last() =~= rv.take(i as int));
                assert(views(out@) =~= rv.take(i + 1).map_values(
                    |e: (Seq<char>, bool, bool)| picker_line(e.1, e.2, e.0),
                ));
                i = i + 1;
            }
            assert(rv.take(rows.len() as int) =~= rv);
        },
    }
    out
}

/// The exit column of a timeline line.
pub open spec fn exit_text(code: Option<i64>) -> Seq<char> {
    match code {
        Some(c) => "(exit "@ + decimal(c as int) + ")"@,
        None => "(no exit)"@,
    }
}

/// One timeline line: the command, the directory it ran in (home-abbreviated)
/// and its exit code; the matched command is marked with an arrow, every other
/// command indented.
pub open spec fn timeline_line(
    row: (Seq<char>, Option<i64>, i64, Seq<char>),
    target: Seq<char>,
    home: Option<Seq<char>>,
) -> Seq<char> {
    (if target.len() > 0 && row.0 == target {
        seq!['\u{2192}', ' ']
    } else {
        seq![' ', ' ']
    }) + row.0 + seq![' ', ' ', ' '] + abbreviated(row.3, home) + seq![' ', ' ', ' '] + exit_text(
        row.1,
    ) + seq!['\n']
}

pub open spec fn timeline_lines(
    rows: Seq<(Seq<char>, Option<i64>, i64, Seq<char>)>,
    target: Seq<char>,
    home: Option<Seq<char>>,
) -> Seq<char>
    decreases rows.len(),
{
    if rows.len() == 0 {
        Seq::empty()
    } else {
        timeline_lines(rows.drop_last(), target, home) + timeline_line(rows.last(), target, home)
    }
}

/// The text of a session timeline; a placeholder line for an empty session.
pub open spec fn timeline_text(
    rows: Seq<(Seq<char>, Option<i64>, i64, Seq<char>)>,
    target: Seq<char>,
    home: Option<Seq<char>>,
) -> Seq<char> {
    if rows.len() == 0 {
        "(no commands in this session)\n"@
    } else {
        timeline_lines(rows, target, home)
    }
}

fn exit_column(code: Option<i64>) -> (r: String)
    ensures
        r@ == exit_text(code),
{
    match code {
        Some(c) => {
            let mut out = String::from_str("(exit ");
            let d = decimal_string(c);
            out.append(d.as_str());
            out.append(")");
            out
        },
        None => String::from_str("(no exit)"),
    }
}

/// Renders a session's timeline as text for the preview pane or an editor:
/// one line per command, in order, with its directory (the home directory
/// written `~`) and its exit code. Rows whose command equals `target` (when
/// non-empty) are marked with an arrow.
pub fn render_timeline(rows: &Vec<TimelineRow>, target: &str, home: Option<&str>) -> (r: String)
    ensures
        r@ == timeline_text(views(rows@), target@, match home {
            Some(x) => Some(x@),
            None => None,
        }),
{
    let ghost hv = match home {
        Some(x) => Some(x@),
        None => None,
    };
    let t = target.to_string();
    let marked = !target.is_empty();
    let ghost rv = views(rows@);
    let mut out = String::new();
    let mut i: usize = 0;
    assert(rv.take(0) =~= Seq::<(Seq<char>, Option<i64>, i64, Seq<char>)>::empty());
    while i < rows.len()
        invariant
            i <= rows.len(),
            rv == views(rows@),
            t@ == target@,
            marked == (target@.len() > 0),
            hv == (match home {
                Some(x) => Some(x@),
                None => None::<Seq<char>>,
            }),
            out@ == timeline_lines(rv.take(i as int), target@, hv),
        decreases rows.len() - i,
    {
        let row = &rows[i];
        let ghost before = out@;
        if marked && row.cmd == t {
            push_char(&mut out, '\u{2192}');
            push_char(&mut out, ' ');
        } else {
            push_char(&mut out, ' ');
            push_char(&mut out, ' ');
        }
        out.append(row.cmd.as_str());
        push_char(&mut out, ' ');
        push_char(&mut out, ' ');
        push_char(&mut out, ' ');
        let dir = abbreviate_path(row.cwd.as_str(), home);
        out.append(dir.as_str());
        push_char(&mut out, ' ');
        push_char(&mut out, ' ');
        push_char(&mut out, ' ');
        let e = exit_column(row.exit_code);
        out.append(e.as_str());
        push_char(&mut out, '\n');
        proof {
            assert(rv[i as int] == row@);
            assert(rv.take(i + 1).drop_last() =~= rv.take(i as int));
            assert(out@ =~= before + timeline_line(row@, target@, hv));
        }
        i = i + 1;
    }
    assert(rv.take(rows.len() as int) =~= rv);
    if rows.len() == 0 {
        out.append("(no commands in this session)\n");
    }
    out
}

/// One row of the session picker: `session<TAB>when<TAB>label<TAB>count`,
/// where `when` is the time the command last ran in the session, as the
/// caller formats it.
pub open spec fn session_line(u: (Seq<char>, Seq<char>, i64, i64), when: Seq<char>) -> Seq<char> {
    u.0 + seq!['\t'] + when + seq!['\t'] + u.1 + seq!['\t'] + decimal(u.2 as int)
}

/// The session picker's row for one session, given the formatted time of the
/// command's last run there.
pub fn session_row(u: &SessionUsage, when: &str) -> (r: String)
    ensures
        r@ == session_line(u@, when@),
{
    let mut line = u.session.clone();
    push_char(&mut line, '\t');
    line.append(when);
    push_char(&mut line, '\t');
    line.append(u.label.as_str());
    push_char(&mut line, '\t');
    let n = decimal_string(u.count);
    line.append(n.as_str());
    assert(line@ =~= session_line(u@, when@));
    line
}

/// The key an exit code has in `inspect`'s `exit_codes` object: its decimal,
/// or `null` for a command that never finished.
pub open spec fn exit_code_key(code: Option<i64>) -> Seq<char> {
    match code {
        Some(c) => decimal(c as int),
        None => "null"@,
    }
}

/// The `exit_codes` entries of `inspect`'s output: each exit code's key with
/// its count, in order.
pub fn exit_code_fields(stats: &CommandStats) -> (r: Vec<(String, i64)>)
    ensures
        views(r@) == stats@.exit_codes.map_values(
            |e: (Option<i64>, i64)| (exit_code_key(e.0), e.1),
        ),
{
    let ghost ev = stats@.exit_codes;
    let mut out: Vec<(String, i64)> = Vec::new();
    let mut i: usize = 0;
    while i < stats.exit_codes.len()
        invariant
            i <= stats.exit_codes.len(),
            ev == stats@.exit_codes,
            ev == views(stats.exit_codes@),
            views(out@) == ev.take(i as int).map_values(
                |e: (Option<i64>, i64)| (exit_code_key(e.0), e.1),
            ),
        decreases stats.exit_codes.len() - i,
    {
        let (code, count) = stats.exit_codes[i];
        let key = match code {
            Some(c) => decimal_string(c),
            None => String::from_str("null"),
        };
        let ghost before = views(out@);
        let ghost kv = key@;
        out.push((key, count));
        proof {
            assert(ev[i as int] == (code, count));
            assert(views(out@) =~= before.push((kv, count)));
            assert(ev.take(i + 1).drop_last() =~= ev.take(i as int));
            assert(ev.take(i + 1).map_values(|e: (Option<i64>, i64)| (exit_code_key(e.0), e.1))
                =~= ev.take(i as int).map_values(
                |e: (Option<i64>, i64)| (exit_code_key(e.0), e.1),
            ).push((kv, count)));
        }
        i = i + 1;
    }
    assert(ev.take(stats.exit_codes.len() as int) =~= ev);
    out
}

/// The `note` field of `inspect`'s output: the note, or nothing (JSON `null`)
/// when the command has none.
pub fn note_field(stats: &CommandStats) -> (r: Option<String>)
    ensures
        r is None <==> stats@.note.len() == 0,
        r matches Some(n) ==> n@ == stats@.note,
{
    if stats.note.as_str().is_empty() {
        None
    } else {
        Some(stats.note.clone())
    }
}

/// The sum of the counts in `m`.
pub open spec fn sum_counts(m: Seq<(Seq<char>, i64)>) -> int
    decreases m.len(),
{
    if m.len() == 0 {
        0
    } else {
        sum_counts(m.drop_last()) + m.last().1
    }
}

/// Every running total of the counts in `m` is an `i64`.
pub open spec fn counts_fit(m: Seq<(Seq<char>, i64)>) -> bool {
    forall|k: int| 0 <= k <= m.len() ==> i64::MIN <= #[trigger] sum_counts(m.take(k)) <= i64::MAX
}

/// One line of the dry run: the run count, then the command.
pub open spec fn prune_line(e: (Seq<char>, i64)) -> Seq<char> {
    "  "@ + decimal(e.1 as int) + "\u{d7}  "@ + e.0
}

/// The report of `prune ignore` on the matched commands and their run counts:
/// that nothing matched; how many were soft-deleted; or, in a dry run, what
/// would be, one line per command.
pub open spec fn prune_report_lines(m: Seq<(Seq<char>, i64)>, apply: bool) -> Seq<Seq<char>> {
    if m.len() == 0 {
        seq!["Nothing matches the ignore list."@]
    } else if apply {
        seq![
            "Soft-deleted "@ + decimal(m.len() as int) + " commands ("@ + decimal(sum_counts(m))
                + " history rows)."@,
        ]
    } else {
        seq![
            "DRY RUN \u{2014} nothing deleted. "@ + decimal(m.len() as int) + " commands ("@
                + decimal(sum_counts(m)) + " history rows) would be soft-deleted:"@,
        ] + m.map_values(|e: (Seq<char>, i64)| prune_line(e)) + seq![
            "Re-run with --apply to soft-delete them."@,
        ]
    }
}

/// The total of the run counts. Every running total must be an `i64`.
fn total_runs(m: &Vec<(String, i64)>) -> (r: i64)
    requires
        counts_fit(views(m@)),
    ensures
        r == sum_counts(views(m@)),
{
    let ghost mv = views(m@);
    let mut total: i64 = 0;
    let mut i: usize = 0;
    assert(mv.take(0) =~= Seq::<(Seq<char>, i64)>::empty());
    while i < m.len()
        invariant
            i <= m.len(),
            mv == views(m@),
            counts_fit(mv),
            total == sum_counts(mv.take(i as int)),
        decreases m.len() - i,
    {
        assert(mv.take(i + 1).drop_last() =~= mv.take(i as int));
        assert(mv.take(i + 1).last() == m@[i as int]@);
        assert(i64::MIN <= sum_counts(mv.take(i + 1)) <= i64::MAX);
        total = total + m[i].1;
        i = i + 1;
    }
    assert(mv.take(m.len() as int) =~= mv);
    total
}

/// The lines that `prune ignore` prints for its matches.
pub fn prune_report(matched: &Vec<(String, i64)>, apply: bool) -> (r: Vec<String>)
    requires
        counts_fit(views(matched@)),
    ensures
        views(r@) == prune_report_lines(views(matched@), apply),
{
    let ghost mv = views(matched@);
    let mut out: Vec<String> = Vec::new();
    if matched.len() == 0 {
        out.push(String::from_str("Nothing matches the ignore list."));
        assert(views(out@) =~= prune_report_lines(mv, apply));
        return out;
    }
    let rows = total_runs(matched);
    let n = count_string(matched.len());
    let total = decimal_string(rows);
    if apply {
        let mut line = String::from_str("Soft-deleted ");
        line.append(n.as_str());
        line.append(" commands (");
        line.append(total.as_str());
        line.append(" history rows).");
        out.push(line);
        assert(views(out@) =~= prune_report_lines(mv, apply));
        return out;
    }
    let mut head = String::from_str("DRY RUN \u{2014} nothing deleted. ");
    head.append(n.as_str());
    head.append(" commands (");
    head.append(total.as_str());
    head.append(" history rows) would be soft-deleted:");
    let ghost hv = head@;
    out.push(head);
    let ghost first = views(out@);
    let mut i: usize = 0;
    while i < matched.len()
        invariant
            i <= matched.len(),
            mv == views(matched@),
            views(out@) == first + mv.take(i as int).map_values(
                |e: (Seq<char>, i64)| prune_line(e),
            ),
        decreases matched.len() - i,
    {
        let ghost before = views(out@);
        let mut line = String::from_str("  ");
        let d = decimal_string(matched[i].1);
        line.append(d.as_str());
        line.append("\u{d7}  ");
        line.append(matched[i].0.as_str());
        let ghost lv = line@;
        out.push(line);
        proof {
            assert(mv[i as int] == matched@[i as int]@);
            assert(lv == prune_line(mv[i as int]));
            assert(views(out@) =~= before.push(lv));
            assert(mv.take(i + 1).drop_last() =~= mv.take(i as int));
            assert(mv.take(i + 1).map_values(|e: (Seq<char>, i64)| prune_line(e)) =~= mv.take(
                i as int,
            ).map_values(|e: (Seq<char>, i64)| prune_line(e)).push(lv));
        }
        i = i + 1;
    }
    let ghost body = views(out@);
    let last = String::from_str("Re-run with --apply to soft-delete them.");
    let ghost tv = last@;
    out.push(last);
    proof {
        assert(mv.take(matched.len() as int) =~= mv);
        assert(first =~= seq![hv]);
        assert(body == seq![hv] + mv.map_values(|e: (Seq<char>, i64)| prune_line(e)));
        assert(views(out@) =~= body.push(tv));
        assert(views(out@) =~= prune_report_lines(mv, apply));
    }
    out
}

/// The picker's state file: reading back what was written for a mode gives
/// that mode, and toggling switches to the other mode and, twice, back.
pub proof fn law_picker_state_round_trip(mode: PickerMode)
    ensures
        mode_of(Some(mode_text(mode))) == mode,
        other_mode(mode) != mode,
        other_mode(other_mode(mode)) == mode,
{
    reveal_strlit("history");
    reveal_strlit("favorites");
    let t = mode_text(mode);
    assert(!is_white(t[0]));
    assert(!is_white(t.last()));
    assert(trim_start(t) == t);
    assert(trim_end(t) == t);
    assert(trimmed(t) == t);
    assert("history"@ != "favorites"@) by {
        assert("history"@.len() != "favorites"@.len());
    }
}

} // verus!

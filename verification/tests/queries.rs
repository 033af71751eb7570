use hindsight::db::{
    deleted_list, deleted_ts, fav_list, fav_rows, inspect, inspect_any, is_deleted, list,
    list_rows, note_get, search, session_timeline, stats_error_prone, stats_top_commands,
    stats_top_dirs, stats_totals, context_sessions_with_home,
};
use hindsight::model::{Change, CommandRow, History};

fn row(id: i64, cmd: &str, cwd: &str, exit: Option<i64>, ts: i64, session: &str) -> CommandRow {
    CommandRow {
        id,
        cmd: cmd.to_string(),
        cwd: cwd.to_string(),
        exit_code: exit,
        start_ts: ts,
        end_ts: Some(ts + 1),
        session: session.to_string(),
    }
}

fn sample() -> History {
    let mut h = History::new();
    let rows = vec![
        row(1, "git status", "/repo", Some(0), 100, "s1"),
        row(2, "cargo build", "/repo", Some(1), 110, "s1"),
        row(3, "ls", "/tmp", Some(0), 120, "s2"),
        row(4, "cargo build", "/repo", Some(0), 130, "s1"),
        row(5, "git status", "/tmp", Some(0), 140, "s2"),
        row(6, "cargo build", "/other", None, 150, "s2"),
        row(7, "z old", "", Some(2), 160, "import"),
    ];
    for r in rows {
        assert!(h.load_command(r));
    }
    h.apply(Change::InsertFavoriteOrIgnore { cmd: "ls".to_string(), created_ts: 10 });
    h.apply(Change::InsertFavoriteOrIgnore { cmd: "git status".to_string(), created_ts: 20 });
    h.apply(Change::UpsertNote { cmd: "ls".to_string(), note: "list files".to_string() });
    h.apply(Change::UpsertNote { cmd: "git status".to_string(), note: "".to_string() });
    h.apply(Change::ReplaceDeleted { cmd: "z old".to_string(), deleted_ts: 500 });
    h.apply(Change::InsertSessionOrIgnore {
        session: "s1".to_string(),
        started_ts: 99,
        init_cwd: "/home/me/repo".to_string(),
    });
    h
}

#[test]
fn load_refuses_non_increasing_ids() {
    let mut h = History::new();
    assert!(h.load_command(row(5, "a", "/", Some(0), 1, "s")));
    assert!(!h.load_command(row(5, "b", "/", Some(0), 2, "s")));
    assert!(!h.load_command(row(3, "b", "/", Some(0), 2, "s")));
    assert_eq!(list(&h, None, None, None), vec!["a".to_string()]);
}

#[test]
fn list_is_newest_first_and_deduped() {
    let h = sample();
    assert_eq!(
        list(&h, None, None, None),
        vec!["cargo build".to_string(), "git status".to_string(), "ls".to_string()]
    );
}

#[test]
fn list_filters_and_limit() {
    let h = sample();
    assert_eq!(list(&h, Some("/repo"), None, None), vec!["cargo build", "git status"]);
    assert_eq!(list(&h, None, Some(0), None), vec!["git status", "cargo build", "ls"]);
    assert_eq!(list(&h, None, Some(1), None), vec!["cargo build"]);
    assert_eq!(list(&h, None, None, Some(2)), vec!["cargo build", "git status"]);
    assert_eq!(list(&h, None, None, Some(0)), Vec::<String>::new());
    assert_eq!(list(&h, None, None, Some(-1)).len(), 3);
}

#[test]
fn list_rows_markers() {
    let h = sample();
    let rows = list_rows(&h, None, None, None);
    assert_eq!(
        rows,
        vec![
            ("cargo build".to_string(), false, false),
            ("git status".to_string(), true, false),
            ("ls".to_string(), true, true),
        ]
    );
}

#[test]
fn favorites_newest_first() {
    let h = sample();
    assert_eq!(
        fav_rows(&h),
        vec![("git status".to_string(), false), ("ls".to_string(), true)]
    );
    assert_eq!(fav_list(&h), vec!["git status", "ls"]);
}

#[test]
fn favorites_ties_by_command_and_hide_deleted() {
    let mut h = History::new();
    h.apply(Change::InsertFavoriteOrIgnore { cmd: "b".to_string(), created_ts: 5 });
    h.apply(Change::InsertFavoriteOrIgnore { cmd: "a".to_string(), created_ts: 5 });
    h.apply(Change::InsertFavoriteOrIgnore { cmd: "c".to_string(), created_ts: 5 });
    h.apply(Change::ReplaceDeleted { cmd: "c".to_string(), deleted_ts: 6 });
    assert_eq!(fav_list(&h), vec!["a", "b"]);
}

#[test]
fn notes_and_deletion_lookups_trim() {
    let h = sample();
    assert_eq!(note_get(&h, "  ls "), "list files");
    assert_eq!(note_get(&h, "cargo build"), "");
    assert!(is_deleted(&h, " z old"));
    assert!(!is_deleted(&h, "ls"));
    assert_eq!(deleted_ts(&h, "z old "), Some(500));
    assert_eq!(deleted_ts(&h, "ls"), None);
}

#[test]
fn top_commands_ranked() {
    let h = sample();
    assert_eq!(
        stats_top_commands(&h, 20),
        vec![
            ("cargo build".to_string(), 3),
            ("git status".to_string(), 2),
            ("ls".to_string(), 1),
        ]
    );
    assert_eq!(stats_top_commands(&h, 1), vec![("cargo build".to_string(), 3)]);
}

#[test]
fn top_commands_tie_broken_by_command() {
    let mut h = History::new();
    assert!(h.load_command(row(1, "zz", "/", Some(0), 1, "s")));
    assert!(h.load_command(row(2, "aa", "/", Some(0), 2, "s")));
    assert_eq!(
        stats_top_commands(&h, -1),
        vec![("aa".to_string(), 1), ("zz".to_string(), 1)]
    );
}

#[test]
fn error_prone_ranked() {
    let h = sample();
    assert_eq!(stats_error_prone(&h, 20), vec![("cargo build".to_string(), 1, 3)]);
}

#[test]
fn top_dirs_skip_empty_cwd() {
    let h = sample();
    assert_eq!(
        stats_top_dirs(&h, 20),
        vec![
            ("/repo".to_string(), 3),
            ("/tmp".to_string(), 2),
            ("/other".to_string(), 1),
        ]
    );
}

#[test]
fn totals_exclude_deleted() {
    let h = sample();
    let t = stats_totals(&h);
    assert_eq!(t.distinct_commands, 3);
    assert_eq!(t.total_runs, 6);
    assert_eq!(t.favorites, 2);
    assert_eq!(t.notes, 2);
}

#[test]
fn inspect_full_metadata() {
    let h = sample();
    let s = inspect(&h, "cargo build").expect("known command");
    assert_eq!(s.run_count, 3);
    assert_eq!(s.exit_codes, vec![(None, 1), (Some(0), 1), (Some(1), 1)]);
    assert_eq!(
        s.directories,
        vec![("/repo".to_string(), 2), ("/other".to_string(), 1)]
    );
    assert_eq!(s.note, "");
    assert!(!s.is_favorite);
    assert_eq!(s.first_run, Some(110));
    assert_eq!(s.last_run, Some(150));
}

#[test]
fn inspect_unknown_and_empty() {
    let h = sample();
    assert!(inspect_any(&h, "never ran").is_none());
    assert!(inspect_any(&h, "   ").is_none());
}

#[test]
fn inspect_favorite_without_runs() {
    let mut h = History::new();
    h.apply(Change::InsertFavoriteOrIgnore { cmd: "deploy".to_string(), created_ts: 1 });
    let s = inspect_any(&h, "deploy").expect("a favorite is known");
    assert_eq!(s.run_count, 0);
    assert!(s.is_favorite);
    assert_eq!(s.first_run, None);
    assert!(s.exit_codes.is_empty());
}

#[test]
fn inspect_hides_deleted_but_inspect_any_sees_it() {
    let h = sample();
    assert!(inspect(&h, "z old").is_none());
    let s = inspect_any(&h, "z old").expect("deleted but stored");
    assert_eq!(s.run_count, 1);
    assert_eq!(s.exit_codes, vec![(Some(2), 1)]);
}

#[test]
fn deleted_list_counts_runs() {
    let mut h = sample();
    h.apply(Change::ReplaceDeleted { cmd: "never".to_string(), deleted_ts: 500 });
    h.apply(Change::ReplaceDeleted { cmd: "ls".to_string(), deleted_ts: 700 });
    assert_eq!(
        deleted_list(&h),
        vec![
            ("ls".to_string(), 700, 1),
            ("never".to_string(), 500, 0),
            ("z old".to_string(), 500, 1),
        ]
    );
}

#[test]
fn search_prefers_current_directory() {
    let h = sample();
    assert_eq!(search(&h, "/tmp", "g", 0), Some("git status".to_string()));
    assert_eq!(search(&h, "/repo", "", 0), Some("cargo build".to_string()));
    assert_eq!(search(&h, "/repo", "", 1), Some("git status".to_string()));
    assert_eq!(search(&h, "/repo", "", 2), Some("ls".to_string()));
    assert_eq!(search(&h, "/repo", "", 3), None);
    assert_eq!(search(&h, "/tmp", "", 0), Some("git status".to_string()));
    assert_eq!(search(&h, "/tmp", "", 1), Some("ls".to_string()));
    assert_eq!(search(&h, "/tmp", "", 2), Some("cargo build".to_string()));
}

#[test]
fn search_negative_offset_counts_as_zero() {
    let h = sample();
    assert_eq!(search(&h, "/x", "c", -5), Some("cargo build".to_string()));
}

#[test]
fn search_is_ascii_case_insensitive_and_literal() {
    let mut h = History::new();
    assert!(h.load_command(row(1, "Git push", "/", Some(0), 1, "s")));
    assert!(h.load_command(row(2, "50% off", "/", Some(0), 2, "s")));
    assert!(h.load_command(row(3, "a_b", "/", Some(0), 3, "s")));
    assert!(h.load_command(row(4, "axb", "/", Some(0), 4, "s")));
    assert_eq!(search(&h, "/", "git", 0), Some("Git push".to_string()));
    assert_eq!(search(&h, "/", "50%", 0), Some("50% off".to_string()));
    assert_eq!(search(&h, "/", "5%", 0), None);
    assert_eq!(search(&h, "/", "a_", 0), Some("a_b".to_string()));
    assert_eq!(search(&h, "/", "a_", 1), None);
}

#[test]
fn search_skips_deleted() {
    let h = sample();
    assert_eq!(search(&h, "/", "z", 0), None);
}

#[test]
fn timeline_in_order_without_deleted() {
    let mut h = sample();
    h.apply(Change::ReplaceDeleted { cmd: "ls".to_string(), deleted_ts: 1 });
    let t = session_timeline(&h, "s2");
    let cmds: Vec<(String, Option<i64>, i64)> =
        t.into_iter().map(|r| (r.cmd, r.exit_code, r.start_ts)).collect();
    assert_eq!(
        cmds,
        vec![
            ("git status".to_string(), Some(0), 140),
            ("cargo build".to_string(), None, 150),
        ]
    );
}

#[test]
fn context_sessions_labels_and_order() {
    let h = sample();
    let s = context_sessions_with_home(&h, " cargo build ", Some("/home/me"));
    let got: Vec<(String, String, i64, i64)> =
        s.into_iter().map(|u| (u.session, u.label, u.count, u.last_ts)).collect();
    assert_eq!(
        got,
        vec![
            ("s2".to_string(), "s2".to_string(), 1, 150),
            ("s1".to_string(), "~/repo".to_string(), 2, 130),
        ]
    );
}

#[test]
fn context_sessions_empty_for_deleted() {
    let h = sample();
    assert!(context_sessions_with_home(&h, "z old", None).is_empty());
}

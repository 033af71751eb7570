use hindsight::config::compile;
use hindsight::db::{
    fav_list, inspect, is_deleted, list, list_rows, note_get, search, stats_totals,
};
use hindsight::model::{Change, CommandRow, History};
use hindsight::ops::{
    end, end_at, fav_add_at, fav_remove, fav_toggle_at, import_zsh_at, note_set, prune_ignored_at,
    restore, soft_delete_at, start, start_at,
};

fn row(id: i64, cmd: &str, cwd: &str, exit: Option<i64>, ts: i64) -> CommandRow {
    CommandRow {
        id,
        cmd: cmd.to_string(),
        cwd: cwd.to_string(),
        exit_code: exit,
        start_ts: ts,
        end_ts: Some(ts),
        session: "s".to_string(),
    }
}

fn apply_all(h: &mut History, cs: Vec<Change>) {
    h.apply_all(cs);
}

#[test]
fn start_records_pending_and_session() {
    let cs = start_at("sess", "/repo", "  git push  ", &[], 100);
    assert_eq!(cs.len(), 2);
    match &cs[0] {
        Change::InsertSessionOrIgnore { session, started_ts, init_cwd } => {
            assert_eq!(session, "sess");
            assert_eq!(*started_ts, 100);
            assert_eq!(init_cwd, "/repo");
        }
        _ => panic!("expected the session row first"),
    }
    match &cs[1] {
        Change::UpsertPending { session, cmd, cwd, start_ts } => {
            assert_eq!(session, "sess");
            assert_eq!(cmd, "git push");
            assert_eq!(cwd, "/repo");
            assert_eq!(*start_ts, 100);
        }
        _ => panic!("expected the pending row second"),
    }
}

#[test]
fn start_ignores_blank_and_ignored() {
    assert!(start_at("s", "/", "   ", &[], 1).is_empty());
    let (pats, bad) = compile(&["^z( |$)".to_string()]);
    assert!(bad.is_empty());
    assert!(start_at("s", "/", "z proj", &pats, 1).is_empty());
    assert_eq!(start_at("s", "/", "zip a.zip", &pats, 1).len(), 2);
}

#[test]
fn start_then_end_records_command() {
    let mut h = History::new();
    assert!(h.load_command(row(7, "older", "/", Some(0), 1)));
    apply_all(&mut h, start_at("sess", "/repo", " cargo test ", &[], 100));
    apply_all(&mut h, start_at("sess", "/repo2", "cargo build", &[], 101));
    let cs = end_at(&h, "sess", 3, 105);
    assert_eq!(cs.len(), 2);
    apply_all(&mut h, cs);
    assert_eq!(list(&h, None, None, None), vec!["cargo build", "older"]);
    let s = inspect(&h, "cargo build").unwrap();
    assert_eq!(s.run_count, 1);
    assert_eq!(s.exit_codes, vec![(Some(3), 1)]);
    assert_eq!(s.directories, vec![("/repo2".to_string(), 1)]);
    assert_eq!(s.first_run, Some(101));
    // nothing pending any more
    assert!(end_at(&h, "sess", 0, 106).is_empty());
    // the session keeps its first directory
    let ctx = hindsight::db::context_sessions_with_home(&h, "cargo build", None);
    assert_eq!(ctx[0].label, "/repo");
}

#[test]
fn end_without_pending_does_nothing() {
    let h = History::new();
    assert!(end_at(&h, "nobody", 0, 1).is_empty());
    assert!(end(&h, "nobody", 0).is_empty());
}

#[test]
fn start_with_clock_yields_changes() {
    assert_eq!(start("s", "/", "ls", &[]).len(), 2);
}

#[test]
fn favorites_add_remove_toggle() {
    let mut h = History::new();
    apply_all(&mut h, fav_add_at(" git push ", 10));
    apply_all(&mut h, fav_add_at("git push", 99));
    assert_eq!(fav_list(&h), vec!["git push"]);
    assert!(fav_add_at("   ", 1).is_empty());
    let (state, cs) = fav_toggle_at(&h, "git push", 11);
    assert!(!state);
    apply_all(&mut h, cs);
    assert!(fav_list(&h).is_empty());
    let (state, cs) = fav_toggle_at(&h, "git push", 12);
    assert!(state);
    apply_all(&mut h, cs);
    assert_eq!(fav_list(&h), vec!["git push"]);
    apply_all(&mut h, fav_remove(" git push"));
    assert!(fav_list(&h).is_empty());
    let (state, cs) = fav_toggle_at(&h, "  ", 1);
    assert!(!state);
    assert!(cs.is_empty());
}

#[test]
fn note_set_then_get() {
    let mut h = History::new();
    apply_all(&mut h, note_set(" git push ", "force-push after rebase"));
    assert_eq!(note_get(&h, "git push"), "force-push after rebase");
    apply_all(&mut h, note_set("git push", "  keep spaces "));
    assert_eq!(note_get(&h, "git push"), "  keep spaces ");
    apply_all(&mut h, note_set("git push", "   "));
    assert_eq!(note_get(&h, "git push"), "");
    assert!(note_set("  ", "x").is_empty());
}

#[test]
fn soft_delete_hides_and_restore_brings_back() {
    let mut h = History::new();
    assert!(h.load_command(row(1, "docker ps", "/", Some(0), 1)));
    assert!(h.load_command(row(2, "ls", "/", Some(0), 2)));
    apply_all(&mut h, fav_add_at("docker ps", 3));
    apply_all(&mut h, soft_delete_at(" docker ps ", 50));
    assert!(is_deleted(&h, "docker ps"));
    assert_eq!(list(&h, None, None, None), vec!["ls"]);
    assert!(fav_list(&h).is_empty());
    assert_eq!(search(&h, "/", "dock", 0), None);
    assert!(inspect(&h, "docker ps").is_none());
    assert_eq!(stats_totals(&h).total_runs, 1);
    // nothing destroyed
    assert_eq!(hindsight::db::inspect_any(&h, "docker ps").unwrap().run_count, 1);
    apply_all(&mut h, restore("docker ps"));
    assert!(!is_deleted(&h, "docker ps"));
    assert_eq!(list(&h, None, None, None), vec!["ls", "docker ps"]);
    assert_eq!(fav_list(&h), vec!["docker ps"]);
    assert!(soft_delete_at("  ", 1).is_empty());
}

#[test]
fn prune_dry_run_and_apply() {
    let mut h = History::new();
    assert!(h.load_command(row(1, "z proj", "/", Some(0), 1)));
    assert!(h.load_command(row(2, "zip a", "/", Some(0), 2)));
    assert!(h.load_command(row(3, "z", "/", Some(0), 3)));
    assert!(h.load_command(row(4, "z proj", "/", Some(0), 4)));
    assert!(h.load_command(row(5, "ls -la", "/", Some(0), 5)));
    assert!(h.load_command(row(6, "lsof", "/", Some(0), 6)));
    let (pats, bad) = compile(&["^z( |$)".to_string(), "^ls\\b".to_string()]);
    assert!(bad.is_empty());
    let (matched, cs) = prune_ignored_at(&h, &pats, false, 9);
    assert_eq!(
        matched,
        vec![
            ("z proj".to_string(), 2),
            ("ls -la".to_string(), 1),
            ("z".to_string(), 1),
        ]
    );
    assert!(cs.is_empty());
    let (matched2, cs) = prune_ignored_at(&h, &pats, true, 9);
    assert_eq!(matched2, matched);
    assert_eq!(cs.len(), 3);
    apply_all(&mut h, cs);
    assert_eq!(list(&h, None, None, None), vec!["lsof", "zip a"]);
    // already-deleted commands are not matched again
    let (again, _) = prune_ignored_at(&h, &pats, true, 10);
    assert!(again.is_empty());
}

#[test]
fn import_zsh_plain_and_extended() {
    let content = ": 1700000000:0;git status\nls -la\r\n\n: 1700000001:0;  \n:broken\n  echo hi  ";
    let (n, cs) = import_zsh_at(content, 42);
    assert_eq!(n, 3);
    let mut h = History::new();
    apply_all(&mut h, cs);
    assert_eq!(list(&h, None, None, None), vec!["echo hi", "ls -la", "git status"]);
    let rows = list_rows(&h, Some(""), None, None);
    assert_eq!(rows.len(), 3);
    let s = inspect(&h, "ls -la").unwrap();
    assert_eq!(s.exit_codes, vec![(None, 1)]);
    assert_eq!(s.first_run, Some(42));
    let ctx = hindsight::db::context_sessions_with_home(&h, "ls -la", None);
    assert_eq!(ctx[0].session, "import");
    assert_eq!(ctx[0].label, "import");
}

#[test]
fn import_extended_line_keeps_text_after_first_semicolon() {
    let (n, cs) = import_zsh_at(": 1:0;a; b\n", 1);
    assert_eq!(n, 1);
    match &cs[0] {
        Change::InsertCommand { cmd, cwd, exit_code, session, .. } => {
            assert_eq!(cmd, "a; b");
            assert_eq!(cwd, "");
            assert_eq!(*exit_code, None);
            assert_eq!(session, "import");
        }
        _ => panic!("expected an insert"),
    }
    let (n, _) = import_zsh_at("", 1);
    assert_eq!(n, 0);
}

#[test]
fn command_ids_continue_after_loaded_rows() {
    let mut h = History::new();
    assert!(h.load_command(row(40, "a", "/", Some(0), 1)));
    apply_all(&mut h, start_at("s", "/", "b", &[], 2));
    let cs = end_at(&h, "s", 0, 3);
    apply_all(&mut h, cs);
    assert!(h.load_command(row(42, "c", "/", Some(0), 4)));
    assert!(!h.load_command(row(41, "d", "/", Some(0), 5)));
    assert_eq!(list(&h, None, None, None), vec!["c", "b", "a"]);
}

#[test]
fn insert_refused_at_end_of_id_range() {
    let mut h = History::new();
    assert!(h.load_command(row(i64::MAX, "last", "/", Some(0), 1)));
    let applied = h.apply(Change::InsertCommand {
        cmd: "x".to_string(),
        cwd: "/".to_string(),
        exit_code: Some(0),
        start_ts: 1,
        end_ts: None,
        session: "s".to_string(),
    });
    assert!(!applied);
    assert_eq!(list(&h, None, None, None), vec!["last"]);
}

use hindsight::clock::unix_seconds;
use hindsight::config::compile;
use hindsight::db::{
    context_sessions_with_home, fav_rows, list, search, session_timeline, stats_error_prone,
    stats_top_commands, stats_totals,
};
use hindsight::model::{Change, CommandRow, History};
use hindsight::ops::{note_edit_changes, prune_ignored_at, soft_delete_at};
use hindsight::present::{
    abbreviate_home, exit_code_fields, note_field, prune_report, session_row,
};
use hindsight::shell::{init_script, ZSH};
use hindsight::text::{count_string, trim_right};

fn row(id: i64, cmd: &str, cwd: &str, exit: Option<i64>, ts: i64, session: &str) -> CommandRow {
    CommandRow {
        id,
        cmd: cmd.to_string(),
        cwd: cwd.to_string(),
        exit_code: exit,
        start_ts: ts,
        end_ts: Some(ts),
        session: session.to_string(),
    }
}

fn history() -> History {
    let mut h = History::new();
    let rows = vec![
        row(1, "ls", "/repo", Some(0), 10, "s1"),
        row(2, "z proj", "/repo", Some(0), 11, "s1"),
        row(3, "cargo test", "/repo", Some(101), 12, "s1"),
        row(4, "ls", "/tmp", Some(0), 13, "s2"),
        row(5, "z other", "/tmp", Some(1), 14, "s2"),
        row(6, "ls", "/tmp", Some(2), 15, "s2"),
    ];
    for r in rows {
        assert!(h.load_command(r));
    }
    h.apply(Change::InsertFavoriteOrIgnore { cmd: "ls".to_string(), created_ts: 1 });
    h.apply(Change::InsertFavoriteOrIgnore { cmd: "cargo test".to_string(), created_ts: 2 });
    h
}

#[test]
fn init_zsh_prints_the_integration() {
    assert_eq!(init_script("zsh"), Ok(ZSH));
    assert!(ZSH.starts_with("# hindsight"));
    assert!(ZSH.contains("bindkey '^[[A' __hindsight_up_widget"));
}

#[test]
fn init_other_shell_is_refused() {
    assert_eq!(
        init_script("bash"),
        Err("unsupported shell 'bash' (only 'zsh' is supported)".to_string())
    );
    assert_eq!(
        init_script(""),
        Err("unsupported shell '' (only 'zsh' is supported)".to_string())
    );
}

#[test]
fn trim_right_drops_trailing_whitespace_only() {
    assert_eq!(trim_right("  note \n\t"), "  note");
    assert_eq!(trim_right("\n\n"), "");
    assert_eq!(trim_right("x"), "x");
}

#[test]
fn count_string_renders_decimal() {
    assert_eq!(count_string(0), "0");
    assert_eq!(count_string(7), "7");
    assert_eq!(count_string(1234567), "1234567");
}

#[test]
fn edited_note_is_trimmed_at_the_end() {
    let cs = note_edit_changes(" git push ", "force-push after rebase\n\n");
    assert_eq!(cs.len(), 1);
    match &cs[0] {
        Change::UpsertNote { cmd, note } => {
            assert_eq!(cmd, "git push");
            assert_eq!(note, "force-push after rebase");
        }
        _ => panic!("expected a note upsert"),
    }
}

#[test]
fn blank_edited_note_clears_it() {
    let cs = note_edit_changes("git push", "  \n");
    assert_eq!(cs.len(), 1);
    match &cs[0] {
        Change::DeleteNote { cmd } => assert_eq!(cmd, "git push"),
        _ => panic!("expected a note delete"),
    }
    assert!(note_edit_changes("   ", "text").is_empty());
}

#[test]
fn prune_report_nothing_matched() {
    assert_eq!(prune_report(&vec![], true), vec!["Nothing matches the ignore list.".to_string()]);
    assert_eq!(prune_report(&vec![], false), vec!["Nothing matches the ignore list.".to_string()]);
}

#[test]
fn prune_report_applied() {
    let m = vec![("ls".to_string(), 3), ("z foo".to_string(), 2)];
    assert_eq!(
        prune_report(&m, true),
        vec!["Soft-deleted 2 commands (5 history rows).".to_string()]
    );
}

#[test]
fn prune_report_dry_run_lists_each_match() {
    let m = vec![("ls".to_string(), 3), ("z foo".to_string(), 2)];
    assert_eq!(
        prune_report(&m, false),
        vec![
            "DRY RUN \u{2014} nothing deleted. 2 commands (5 history rows) would be soft-deleted:"
                .to_string(),
            "  3\u{d7}  ls".to_string(),
            "  2\u{d7}  z foo".to_string(),
            "Re-run with --apply to soft-delete them.".to_string(),
        ]
    );
}

#[test]
fn timeline_rows_carry_their_directory() {
    let h = history();
    let t = session_timeline(&h, "s2");
    let got: Vec<(String, String)> = t.into_iter().map(|r| (r.cmd, r.cwd)).collect();
    assert_eq!(
        got,
        vec![
            ("ls".to_string(), "/tmp".to_string()),
            ("z other".to_string(), "/tmp".to_string()),
            ("ls".to_string(), "/tmp".to_string()),
        ]
    );
}

#[test]
fn deleted_command_is_hidden_from_every_view() {
    let mut h = history();
    let cs = soft_delete_at("ls", 99);
    h.apply_all(cs);
    assert!(!list(&h, None, None, None).contains(&"ls".to_string()));
    assert_eq!(search(&h, "/tmp", "l", 0), None);
    assert!(fav_rows(&h).iter().all(|(c, _)| c != "ls"));
    assert_eq!(fav_rows(&h), vec![("cargo test".to_string(), false)]);
    assert!(stats_top_commands(&h, -1).iter().all(|(c, _)| c != "ls"));
    assert!(stats_error_prone(&h, -1).iter().all(|(c, _, _)| c != "ls"));
    assert!(session_timeline(&h, "s2").iter().all(|r| r.cmd != "ls"));
    assert!(context_sessions_with_home(&h, "ls", None).is_empty());
}

#[test]
fn prune_apply_deletes_every_match_and_dry_run_nothing() {
    let (pats, bad) = compile(&["^z( |$)".to_string()]);
    assert!(bad.is_empty());
    let h = history();
    let (matched, dry) = prune_ignored_at(&h, &pats, false, 50);
    assert_eq!(matched, vec![("z other".to_string(), 1), ("z proj".to_string(), 1)]);
    assert!(dry.is_empty());
    let (matched2, changes) = prune_ignored_at(&h, &pats, true, 50);
    assert_eq!(matched2, matched);
    let mut h2 = history();
    h2.apply_all(changes);
    assert_eq!(
        list(&h2, None, None, None),
        vec!["ls".to_string(), "cargo test".to_string()]
    );
    assert_eq!(stats_top_commands(&h2, -1).len(), 2);
}

#[test]
fn top_commands_sum_to_total_runs() {
    let mut h = history();
    let total: i64 = stats_top_commands(&h, -1).iter().map(|(_, n)| n).sum();
    assert_eq!(total, 6);
    assert_eq!(stats_totals(&h).total_runs, total);
    h.apply_all(soft_delete_at("ls", 5));
    let total: i64 = stats_top_commands(&h, -1).iter().map(|(_, n)| n).sum();
    assert_eq!(total, 3);
    assert_eq!(stats_totals(&h).total_runs, total);
}

#[test]
fn abbreviate_home_leaves_other_paths_alone() {
    let p = "/no-such-home-prefix-hindsight/a/b";
    assert_eq!(abbreviate_home(p), p);
    assert_eq!(abbreviate_home(""), "");
}

#[test]
fn session_rows_carry_the_time_given() {
    let h = history();
    let sessions = context_sessions_with_home(&h, "ls", Some("/home/me"));
    let rows: Vec<String> = sessions
        .iter()
        .map(|s| session_row(s, &format!("t{}", s.last_ts)))
        .collect();
    assert_eq!(rows, vec!["s2\tt15\ts2\t2".to_string(), "s1\tt10\ts1\t1".to_string()]);
}

#[test]
fn inspect_fields_for_json() {
    let h = history();
    let s = hindsight::db::inspect(&h, "ls").unwrap();
    assert_eq!(
        exit_code_fields(&s),
        vec![("0".to_string(), 2), ("2".to_string(), 1)]
    );
    assert_eq!(note_field(&s), None);
    let mut h2 = history();
    h2.apply(Change::UpsertNote { cmd: "ls".to_string(), note: "list".to_string() });
    h2.apply(Change::InsertFavoriteOrIgnore { cmd: "never run".to_string(), created_ts: 3 });
    assert_eq!(note_field(&hindsight::db::inspect(&h2, "ls").unwrap()), Some("list".to_string()));
    let u = hindsight::db::inspect(&h2, "never run").unwrap();
    assert!(exit_code_fields(&u).is_empty());
}

#[test]
fn null_exit_code_key() {
    let mut h = History::new();
    assert!(h.load_command(CommandRow {
        id: 1,
        cmd: "sleep".to_string(),
        cwd: "/".to_string(),
        exit_code: None,
        start_ts: 1,
        end_ts: None,
        session: "s".to_string(),
    }));
    assert!(h.load_command(row(2, "sleep", "/", Some(-1), 2, "s")));
    let s = hindsight::db::inspect(&h, "sleep").unwrap();
    assert_eq!(
        exit_code_fields(&s),
        vec![("null".to_string(), 1), ("-1".to_string(), 1)]
    );
}

#[test]
fn compile_reports_each_bad_pattern_with_message() {
    let (good, bad) = compile(&["ok".to_string(), "(".to_string(), "a[".to_string()]);
    assert_eq!(good.len(), 1);
    assert_eq!(bad.len(), 2);
    assert_eq!(bad[0].0, "(");
    assert_eq!(bad[1].0, "a[");
    assert!(!bad[0].1.is_empty());
    assert_eq!(bad[0].1, regex::RegexBuilder::new("(").case_insensitive(true).build().unwrap_err().to_string());
}

#[test]
fn search_walks_every_match_directory_first() {
    let h = history();
    assert_eq!(search(&h, "/repo", "z", 0), Some("z proj".to_string()));
    assert_eq!(search(&h, "/repo", "z", 1), Some("z other".to_string()));
    assert_eq!(search(&h, "/repo", "z", 2), None);
    assert_eq!(search(&h, "/tmp", "Z", 0), Some("z other".to_string()));
    assert_eq!(search(&h, "/tmp", "Z", 1), Some("z proj".to_string()));
    assert_eq!(search(&h, "/tmp", "z", -3), Some("z other".to_string()));
}

#[test]
fn second_import_adds_no_new_command() {
    let content = ": 1:0;git status\nls -la\nls -la\n";
    let mut h = History::new();
    let (n1, cs1) = hindsight::ops::import_zsh_at(content, 1);
    h.apply_all(cs1);
    let after_first = list(&h, None, None, None);
    let (n2, cs2) = hindsight::ops::import_zsh_at(content, 2);
    h.apply_all(cs2);
    assert_eq!((n1, n2), (3, 3));
    assert_eq!(stats_totals(&h).total_runs, 6);
    let mut a = after_first.clone();
    let mut b = list(&h, None, None, None);
    a.sort();
    b.sort();
    assert_eq!(a, b);
    assert_eq!(stats_top_commands(&h, -1), vec![("ls -la".to_string(), 4), ("git status".to_string(), 2)]);
}

#[test]
fn prune_twice_finds_nothing_and_marks_only_matches() {
    let (pats, _) = compile(&["^z( |$)".to_string()]);
    let mut h = history();
    let (_, cs) = prune_ignored_at(&h, &pats, true, 50);
    h.apply_all(cs);
    let (again, cs2) = prune_ignored_at(&h, &pats, true, 51);
    assert!(again.is_empty());
    assert!(cs2.is_empty());
    let deleted: Vec<String> = hindsight::db::deleted_list(&h).into_iter().map(|(c, _, _)| c).collect();
    assert_eq!(deleted, vec!["z other".to_string(), "z proj".to_string()]);
}

#[test]
fn unix_seconds_of_a_reading() {
    assert_eq!(unix_seconds(None), 0);
    assert_eq!(unix_seconds(Some(0)), 0);
    assert_eq!(unix_seconds(Some(1_710_000_000)), 1_710_000_000);
    assert_eq!(unix_seconds(Some(u64::MAX)), -1);
}

#[test]
fn picker_binds_ctrl_k_to_soft_delete() {
    assert!(ZSH.contains("ctrl-k:execute-silent(command hindsight delete -- {2..})"));
}

#[test]
fn prune_keeps_earlier_deletion_times() {
    let (pats, _) = compile(&["^z( |$)".to_string()]);
    let mut h = history();
    h.apply_all(soft_delete_at("cargo test", 7));
    let (_, cs) = prune_ignored_at(&h, &pats, true, 50);
    h.apply_all(cs);
    assert_eq!(hindsight::db::deleted_ts(&h, "cargo test"), Some(7));
    assert_eq!(hindsight::db::deleted_ts(&h, "z proj"), Some(50));
    assert_eq!(hindsight::db::deleted_ts(&h, "ls"), None);
}

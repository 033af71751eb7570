use hindsight::clock::now;
use hindsight::config::{compile, compile_one, is_ignored};
use hindsight::like::escape_like;
use hindsight::model::{Change, History};
use hindsight::present::{
    abbreviate_path, marker, mode_name, picker_mode, picker_rows, render_timeline,
    session_label, session_label_with_home, toggled, PickerMode,
};
use hindsight::db::TimelineRow;
use hindsight::text::{decimal_string, trim, is_blank, string_le};

#[test]
fn escape_like_escapes_wildcards_and_backslash() {
    assert_eq!(escape_like("50%_a\\b"), "50\\%\\_a\\\\b");
    assert_eq!(escape_like("plain"), "plain");
    assert_eq!(escape_like(""), "");
}

#[test]
fn trim_unicode_whitespace() {
    assert_eq!(trim("  a b \t\n"), "a b");
    assert_eq!(trim("\u{3000}x\u{A0}"), "x");
    assert_eq!(trim("   "), "");
    assert!(is_blank(" \t "));
    assert!(!is_blank(" . "));
}

#[test]
fn code_point_order() {
    assert!(string_le(&"ab".to_string(), &"b".to_string()));
    assert!(string_le(&"a".to_string(), &"ab".to_string()));
    assert!(!string_le(&"b".to_string(), &"a".to_string()));
    assert!(string_le(&"Z".to_string(), &"a".to_string()));
}

#[test]
fn decimal_rendering() {
    assert_eq!(decimal_string(0), "0");
    assert_eq!(decimal_string(127), "127");
    assert_eq!(decimal_string(-5), "-5");
    assert_eq!(decimal_string(i64::MIN), "-9223372036854775808");
    assert_eq!(decimal_string(i64::MAX), "9223372036854775807");
}

#[test]
fn ignore_patterns_are_unanchored_regexes() {
    let pats: Vec<String> = vec![
        "^z( |$)".to_string(),
        "^zi( |$)".to_string(),
        "^ls\\b".to_string(),
        "secret".to_string(),
    ];
    let (good, bad) = compile(&pats);
    assert_eq!(good.len(), 4);
    assert!(bad.is_empty());
    assert!(is_ignored("z", &good));
    assert!(is_ignored("z proj", &good));
    assert!(!is_ignored("zip", &good));
    assert!(!is_ignored("fzf", &good));
    assert!(is_ignored("zi bar", &good));
    assert!(is_ignored("ls -la", &good));
    assert!(!is_ignored("lsof", &good));
    assert!(is_ignored("aws secret get", &good));
    assert!(is_ignored("echo $SECRET", &good));
    assert!(is_ignored("Z proj", &good));
    assert!(!is_ignored("anything", &[]));
}

#[test]
fn invalid_patterns_are_reported_in_order() {
    let pats: Vec<String> = vec!["foo(".to_string(), "ok".to_string(), "[".to_string()];
    let (good, bad) = compile(&pats);
    assert_eq!(good.len(), 1);
    assert_eq!(good[0].source(), "ok");
    assert_eq!(bad.len(), 2);
    assert_eq!(bad[0].0, "foo(");
    assert_eq!(bad[1].0, "[");
    assert!(!bad[0].1.is_empty());
    assert!(compile_one("(").is_err());
}

#[test]
fn markers() {
    assert_eq!(marker(true, true), "\u{2605}\u{270E}");
    assert_eq!(marker(true, false), "\u{2605}");
    assert_eq!(marker(false, true), "\u{270E}");
    assert_eq!(marker(false, false), "");
}

#[test]
fn home_abbreviation() {
    assert_eq!(abbreviate_path("/home/me", Some("/home/me")), "~");
    assert_eq!(abbreviate_path("/home/me/repo", Some("/home/me")), "~/repo");
    assert_eq!(abbreviate_path("/home/meow", Some("/home/me")), "/home/meow");
    assert_eq!(abbreviate_path("/srv", None), "/srv");
    assert_eq!(session_label_with_home("123-4", "", Some("/home/me")), "123-4");
    assert_eq!(session_label_with_home("123-4", "/home/me/x", Some("/home/me")), "~/x");
    assert_eq!(session_label("123-4", ""), "123-4");
}

#[test]
fn picker_modes() {
    assert!(matches!(picker_mode(Some(" favorites\n")), PickerMode::Favorites));
    assert!(matches!(picker_mode(Some("history")), PickerMode::History));
    assert!(matches!(picker_mode(Some("fav")), PickerMode::History));
    assert!(matches!(picker_mode(None), PickerMode::History));
    assert!(matches!(toggled(PickerMode::History), PickerMode::Favorites));
    assert_eq!(mode_name(&PickerMode::Favorites), "favorites");
    assert_eq!(mode_name(&toggled(PickerMode::Favorites)), "history");
}

#[test]
fn picker_rows_carry_markers() {
    let mut h = History::new();
    h.apply_all(hindsight::ops::start_at("s", "/", "ls", &[], 1));
    let cs = hindsight::ops::end_at(&h, "s", 0, 2);
    h.apply_all(cs);
    h.apply(Change::InsertFavoriteOrIgnore { cmd: "ls".to_string(), created_ts: 3 });
    h.apply(Change::UpsertNote { cmd: "ls".to_string(), note: "n".to_string() });
    assert_eq!(picker_rows(&h, &PickerMode::History), vec!["\u{2605}\u{270E}\tls".to_string()]);
    assert_eq!(picker_rows(&h, &PickerMode::Favorites), vec!["\u{2605}\u{270E}\tls".to_string()]);
}

#[test]
fn timeline_text_marks_target() {
    let rows = vec![
        TimelineRow { cmd: "git pull".to_string(), exit_code: Some(0), start_ts: 1, cwd: "/repo".to_string() },
        TimelineRow { cmd: "cargo build".to_string(), exit_code: Some(101), start_ts: 2, cwd: "/repo".to_string() },
        TimelineRow { cmd: "cargo build".to_string(), exit_code: None, start_ts: 3, cwd: "/repo".to_string() },
    ];
    assert_eq!(
        render_timeline(&rows, "cargo build", None),
        "  git pull   /repo   (exit 0)\n\u{2192} cargo build   /repo   (exit 101)\n\u{2192} cargo build   /repo   (no exit)\n"
    );
    assert_eq!(
        render_timeline(&rows, "", Some("/repo")),
        "  git pull   ~   (exit 0)\n  cargo build   ~   (exit 101)\n  cargo build   ~   (no exit)\n"
    );
    assert_eq!(render_timeline(&Vec::new(), "x", None), "(no commands in this session)\n");
}

#[test]
fn clock_reads_after_the_epoch() {
    assert!(now() > 1_600_000_000);
}

#[test]
fn empty_history_answers() {
    let h = History::new();
    assert!(hindsight::db::list(&h, None, None, None).is_empty());
    assert_eq!(hindsight::db::search(&h, "/", "", 0), None);
    let t = hindsight::db::stats_totals(&h);
    assert_eq!((t.distinct_commands, t.total_runs, t.favorites, t.notes), (0, 0, 0, 0));
}

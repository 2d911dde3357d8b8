//! Paths, variables, path queries and walks.
use finder::env::{expand_env, expand_env_vars, Env};
use finder::num::{chrono_like_now, decimal_text, fmt_ago, millis, millis_at, now_millis};
use finder::paths::expand_path_query;
use finder::sort::{stable_order, SortKey};
use finder::text::{
    str_parts, str_replace, str_shorten, str_trim, str_words, strip_start,
};
use finder::walk::{Item, ItemKind, PathSearch, PathStep, Walk};
use finder::winpath::{path_extension, path_file_name, path_file_stem, path_parent, path_push};

fn env(vars: &[(&str, &str)]) -> Env {
    Env { vars: vars.iter().map(|(k, v)| (k.to_string(), v.to_string())).collect() }
}

fn home() -> Env {
    env(&[
        ("USERPROFILE", "C:\\Users\\ansh"),
        ("USERNAME", "ansh"),
        ("APPDATA", "C:\\Users\\ansh\\AppData\\Roaming\\"),
        ("SystemRoot", "C:\\Windows"),
        ("TEMP", "C:\\T"),
    ])
}

#[test]
fn parts_of_windows_paths() {
    assert_eq!(path_file_name("C:\\a\\b.tar.gz").as_deref(), Some("b.tar.gz"));
    assert_eq!(path_file_stem("C:\\a\\b.tar.gz").as_deref(), Some("b.tar"));
    assert_eq!(path_extension("C:/a/b.tar.gz").as_deref(), Some("gz"));
    assert_eq!(path_extension("C:\\a\\.git"), None);
    assert_eq!(path_file_stem("C:\\a\\.git").as_deref(), Some(".git"));
    assert_eq!(path_file_name("C:\\"), None);
    assert_eq!(path_parent("C:\\a\\b").as_deref(), Some("C:\\a"));
    assert_eq!(path_parent("C:\\a").as_deref(), Some("C:\\"));
    assert_eq!(path_parent("C:\\"), None);
    assert_eq!(path_parent("a").as_deref(), Some(""));
    assert_eq!(path_parent(".").as_deref(), Some(""));
    assert_eq!(path_parent("C:.").as_deref(), Some("C:"));
    assert_eq!(path_parent(".\\a").as_deref(), Some("."));
    assert_eq!(path_file_name("."), None);
    assert_eq!(path_file_name("C:\\a\\.\\").as_deref(), Some("a"));
    assert_eq!(path_file_name("\\\\s\\t\\a").as_deref(), Some("a"));
    assert_eq!(path_file_name("\\\\s\\t"), None);
    assert_eq!(path_file_name("\\\\?\\UNC\\s\\t"), None);
    assert_eq!(path_file_name("\\\\?\\C:\\a/b").as_deref(), Some("a/b"));
    assert_eq!(path_file_name("\\\\?\\C:\\a\\."), None);
    assert_eq!(path_parent("\\\\?\\C:\\a\\b").as_deref(), Some("\\\\?\\C:\\a"));
    assert_eq!(path_parent("\\\\?\\C:\\"), None);
    assert_eq!(path_file_name("\\\\.\\COM1"), None);
}

#[test]
fn paths_behind_paths() {
    assert_eq!(path_push("C:\\a", "b"), "C:\\a\\b");
    assert_eq!(path_push("C:\\", "b"), "C:\\b");
    assert_eq!(path_push("C:/", "b"), "C:/b");
    assert_eq!(path_push("C:", "x.exe"), "C:x.exe");
    assert_eq!(path_push("C:\\a", "D:"), "D:");
    assert_eq!(path_push("C:\\a", "D:x"), "D:x");
    assert_eq!(path_push("C:\\a", "\\b"), "C:\\b");
    assert_eq!(path_push("C:\\a", "\\\\s\\t\\b"), "\\\\s\\t\\b");
    assert_eq!(path_push("", "b"), "b");
    assert_eq!(path_push("a", ""), "a\\");
}

#[test]
fn variables_are_filled_in() {
    let e = env(&[("ProgramFiles", "C:\\Program Files"), ("X", "%Y%"), ("Y", "end"), ("L", "%L%")]);
    assert_eq!(expand_env("%ProgramFiles%\\a", &e).as_deref(), Some("C:\\Program Files\\a"));
    assert_eq!(expand_env("%X%", &e).as_deref(), Some("end"));
    assert_eq!(expand_env("%NONE%x", &e).as_deref(), Some("NONE%x"));
    assert_eq!(expand_env("100%", &e).as_deref(), Some("100%"));
    assert_eq!(expand_env("%%a", &e).as_deref(), Some("%a"));
    assert_eq!(expand_env("%L%", &e), None);
    let many = "%Y%".repeat(3000);
    assert_eq!(expand_env(&many, &e), Some("end".repeat(3000)));
    assert_eq!(expand_env_vars("%Y%!", &e), "end!");
}

#[test]
fn queries_name_places() {
    let e = home();
    let q = |s: &str| expand_path_query(s, &e);
    assert_eq!(q("~").as_deref(), Some("C:\\Users\\ansh"));
    assert_eq!(q("~/Downloads").as_deref(), Some("C:\\Users\\ansh\\Downloads"));
    assert_eq!(q("\"C:\\Games\\\"").as_deref(), Some("C:\\Games"));
    assert_eq!(q("%TEMP%\\x").as_deref(), Some("C:\\T\\x"));
    assert_eq!(q("%NOPE%\\x"), None);
    assert_eq!(q("%%"), None);
    assert_eq!(q("d:").as_deref(), Some("d:"));
    assert_eq!(q("\\\\nas\\share").as_deref(), Some("\\\\nas\\share"));
    assert_eq!(q("\\Windows\\System32").as_deref(), Some("C:\\Windows\\System32"));
    assert_eq!(
        q("AppData\\Code").as_deref(),
        Some("C:\\Users\\ansh\\AppData\\Roaming\\Code")
    );
    assert_eq!(q("system32/drivers").as_deref(), Some("C:\\Windows\\System32\\drivers"));
    assert_eq!(q("ansh\\Downloads").as_deref(), Some("C:\\Users\\ansh\\Downloads"));
    assert_eq!(q("Downloads\\x").as_deref(), Some("C:\\Users\\ansh\\Downloads\\x"));
    assert_eq!(q("temp xyz"), None);
    assert_eq!(q("   "), None);
}

fn item(dir: &str, name: &str, kind: ItemKind) -> Item {
    Item { name: name.into(), path: format!("{dir}\\{name}"), kind }
}

fn rows(step: PathStep) -> Vec<(String, u8)> {
    match step {
        PathStep::Rows(r) => r.into_iter().map(|x| (x.name, x.rank)).collect(),
        _ => panic!("not done"),
    }
}

#[test]
fn exact_paths_are_one_row() {
    let mut s = PathSearch::path_results("C:\\a\\b.txt");
    assert_eq!(rows(s.stat(Some(false))), vec![("b.txt".to_string(), 1)]);
}

#[test]
fn typed_remainders_are_searched_below_what_exists() {
    let mut s = PathSearch::path_results("C:\\a\\pre");
    match s.stat(None) {
        PathStep::Stat(p) => assert_eq!(p, "C:\\a\\pre"),
        _ => panic!("no second look"),
    }
    match s.stat(None) {
        PathStep::Stat(p) => assert_eq!(p, "C:\\a"),
        _ => panic!("no look at the parent"),
    }
    match s.stat(Some(true)) {
        PathStep::List(p) => assert_eq!(p, "C:\\a"),
        _ => panic!("no list"),
    }
    let step = s.list(vec![
        item("C:\\a", "Spread", ItemKind::File),
        item("C:\\a", "Preferences", ItemKind::File),
        item("C:\\a", "link-pre", ItemKind::Link),
        item("C:\\a", "presets", ItemKind::Dir),
        item("C:\\a", "zzz", ItemKind::File),
    ]);
    match step {
        PathStep::List(p) => assert_eq!(p, "C:\\a\\presets"),
        _ => panic!("no descent"),
    }
    let got = rows(s.list(vec![item("C:\\a\\presets", "PRE", ItemKind::File)]));
    assert_eq!(
        got,
        vec![
            ("PRE".to_string(), 1),
            ("presets".to_string(), 2),
            ("Preferences".to_string(), 2),
            ("Spread".to_string(), 3),
        ]
    );
}

#[test]
fn a_file_inside_the_path_gives_nothing() {
    let mut s = PathSearch::path_results("C:\\a.txt\\b");
    s.stat(None);
    s.stat(None);
    assert!(rows(s.stat(Some(false))).is_empty());
}

#[test]
fn walks_are_bounded() {
    let mut w = Walk::new("x".into());
    let many: Vec<Item> = (0..400).map(|i| item("C:", &format!("x{i}"), ItemKind::File)).collect();
    w.descend(many);
    assert!(w.advance().is_none());
    assert_eq!(w.rows().len(), 200);
}

#[test]
fn orders_are_stable() {
    let key = |num: u64, text: &str| SortKey { num, text: text.as_bytes().to_vec() };
    let keys = vec![key(2, "a"), key(1, "b"), key(1, "a"), key(1, "b")];
    assert_eq!(stable_order(&keys), vec![2, 1, 3, 0]);
    assert!(stable_order(&Vec::new()).is_empty());
}

#[test]
fn numbers_and_times() {
    assert_eq!(decimal_text(0), "0");
    assert_eq!(decimal_text(u64::MAX), "18446744073709551615");
    assert_eq!(millis(None), 0);
    assert_eq!(millis(Some(1234)), 1234);
    assert!(now_millis() > 1_500_000_000_000);
    let t = std::time::UNIX_EPOCH + std::time::Duration::from_micros(1_234_567);
    assert_eq!(millis_at(t), 1234);
    assert_eq!(millis_at(std::time::UNIX_EPOCH - std::time::Duration::from_secs(1)), 0);
    assert_eq!(chrono_like_now(12, 3_499_999), "+12.003s");
    assert_eq!(chrono_like_now(12, 999_600_000), "+13.000s");
    let now = 10_000_000_000;
    let secs = now / 1000;
    assert_eq!(fmt_ago(now, secs + 5), "just now");
    assert_eq!(fmt_ago(now, secs - 59), "just now");
    assert_eq!(fmt_ago(now, secs - 180), "3 min ago");
    assert_eq!(fmt_ago(now, secs - 7200), "2 h ago");
    assert_eq!(fmt_ago(now, secs - 2 * 86_400), "2 d ago");
    assert_eq!(fmt_ago(now, secs - 2_592_000), "4 wk ago");
}

#[test]
fn texts_are_cut_and_joined() {
    assert_eq!(str_trim(" \u{a0}a b\t\n"), "a b");
    assert_eq!(str_words("  a\u{2003}b  c "), vec!["a", "b", "c"]);
    assert_eq!(str_parts("a,,b,", ','), vec!["a", "", "b", ""]);
    assert_eq!(str_replace("aXbXX", "X", "--"), "a--b----");
    assert_eq!(str_shorten("abcdef", 3), "abc…");
    assert_eq!(str_shorten("abc", 3), "abc");
    assert_eq!(str_shorten("aéé", 2), "a…");
    assert_eq!(strip_start("ext:pdf", "ext:").as_deref(), Some("pdf"));
    assert_eq!(strip_start("x", "ext:"), None);
}

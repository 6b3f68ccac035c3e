use sa_git_hook::config::Config;
use sa_git_hook::diff_stats::{get_file_extension, DiffStats};
use sa_git_hook::payload::{generate_json_key_value_string, value_string};
use sa_git_hook::numbers::IntErrorKind;

fn chars(s: &str) -> Vec<char> {
    s.chars().collect()
}

fn stats(files: u32, ins: u32, del: u32, exts: &[&str]) -> DiffStats {
    DiffStats::new(files, del, ins, exts.iter().map(|e| e.to_string()).collect())
}

fn strings(v: &[&str]) -> Vec<String> {
    v.iter().map(|e| e.to_string()).collect()
}

#[test]
fn numstat_sums_counts_and_collects_extensions() {
    let out = "13\t28\tsrc/main.rs\n2\t0\tconfig.yaml\n1\t1\tsrc/lib.rs\n0\t4\tREADME\n";
    assert!(DiffStats::numstat_has_all_fields(out, '/'));
    let s = DiffStats::from_numstat(out, '/').unwrap();
    assert_eq!(s.insertions(), 16);
    assert_eq!(s.deletions(), 33);
    assert_eq!(s.files_changed(), 4);
    assert_eq!(*s.extensions(), strings(&[".rs", ".yaml"]));
}

#[test]
fn numstat_of_empty_output_counts_nothing() {
    let s = DiffStats::from_numstat("  \n", '/').unwrap();
    assert_eq!(s.insertions(), 0);
    assert_eq!(s.deletions(), 0);
    assert_eq!(s.files_changed(), 0);
    assert!(s.extensions().is_empty());
}

#[test]
fn numstat_binary_file_is_an_invalid_count() {
    let out = "1\t2\ta.rs\n-\t-\timage.png\n";
    assert!(DiffStats::numstat_has_all_fields(out, '/'));
    assert_eq!(DiffStats::from_numstat(out, '/').err(), Some(IntErrorKind::InvalidDigit));
}

#[test]
fn numstat_count_too_large_is_overflow() {
    let out = "4294967296\t0\ta.rs";
    assert_eq!(DiffStats::from_numstat(out, '/').err(), Some(IntErrorKind::PosOverflow));
}

#[test]
fn numstat_sums_wrap_at_u32() {
    let out = "4294967295\t0\ta.rs\n2\t0\tb.rs\n";
    let s = DiffStats::from_numstat(out, '/').unwrap();
    assert_eq!(s.insertions(), 1);
    assert_eq!(s.files_changed(), 2);
}

#[test]
fn numstat_line_without_path_lacks_a_field() {
    assert!(!DiffStats::numstat_has_all_fields("1\t2\ta.rs\n3\t4\n", '/'));
    assert!(!DiffStats::numstat_has_all_fields("1\t2\ta.rs\n\n3\t4\tb.rs", '/'));
    assert!(!DiffStats::numstat_has_all_fields("7", '/'));
}

#[test]
fn numstat_error_before_missing_field_wins() {
    let out = "x\t2\n";
    assert!(DiffStats::numstat_has_all_fields(out, '/'));
    assert_eq!(DiffStats::from_numstat(out, '/').err(), Some(IntErrorKind::InvalidDigit));
}

#[test]
fn numstat_windows_separator() {
    let out = "1\t1\tdir.d\\file.txt\r\n2\t2\tdir.d\\noext\r\n";
    let s = DiffStats::from_numstat(out, '\\').unwrap();
    assert_eq!(*s.extensions(), strings(&[".txt"]));
    assert_eq!(s.files_changed(), 2);
    assert_eq!(s.insertions(), 3);
}

#[test]
fn file_extension_cases() {
    assert_eq!(get_file_extension(&chars("a/b/c.tar.gz"), '/'), Some(".gz".to_string()));
    assert_eq!(get_file_extension(&chars("a.d/Makefile"), '/'), None);
    assert_eq!(get_file_extension(&chars(".gitignore"), '/'), Some(".gitignore".to_string()));
    assert_eq!(get_file_extension(&chars("a/b."), '/'), Some(".".to_string()));
    assert_eq!(get_file_extension(&chars("dir.x/file"), '\\'), Some(".x/file".to_string()));
}

#[test]
fn json_helpers() {
    assert_eq!(generate_json_key_value_string("insertions", "13"), "\"insertions\": 13");
    assert_eq!(value_string("team name"), "\"team name\"");
}

#[test]
fn json_strings_are_escaped() {
    assert_eq!(value_string("a\"b\\c"), "\"a\\\"b\\\\c\"");
    assert_eq!(value_string("l1\nl2\t\r\u{8}\u{c}"), "\"l1\\nl2\\t\\r\\b\\f\"");
    assert_eq!(value_string("\u{1}\u{1f}"), "\"\\u0001\\u001f\"");
    assert_eq!(value_string("é ü"), "\"é ü\"");
}

#[test]
fn new_keeps_each_extension_once() {
    let s = stats(1, 2, 3, &[".rs", ".md", ".rs"]);
    assert_eq!(*s.extensions(), strings(&[".rs", ".md"]));
    assert_eq!(s.files_changed(), 1);
    assert_eq!(s.insertions(), 2);
    assert_eq!(s.deletions(), 3);
}

#[test]
fn extensions_json_array() {
    assert_eq!(stats(0, 0, 0, &[]).extensions_to_string(), "[]");
    assert_eq!(stats(0, 0, 0, &[".rs"]).extensions_to_string(), "[\".rs\"]");
    assert_eq!(stats(0, 0, 0, &[".rs", ".yaml"]).extensions_to_string(), "[\".rs\",\".yaml\"]");
}

#[test]
fn payload_follows_readme_example() {
    let mut config = Config::default();
    config.username = "test username".to_string();
    config.team_name = "team name".to_string();
    let json = stats(3, 13, 28, &[".rs", ".yaml"]).to_json(&config);
    assert_eq!(
        json,
        "{ \"files_changed\": 3, \"insertions\": 13, \"deletions\": 28, \"extension\": [\".rs\",\".yaml\"], \"team_name\": \"team name\", \"username\": \"test username\" }"
    );
}

#[test]
fn display_summary() {
    let s = stats(3, 13, 28, &[".rs", ".yaml"]);
    assert_eq!(
        s.to_display_string(),
        "insertions: 13, deletions: 28, files_changed: 3 extensions: {\".rs\", \".yaml\"}"
    );
    assert_eq!(
        stats(0, 0, 0, &[]).to_display_string(),
        "insertions: 0, deletions: 0, files_changed: 0 extensions: {}"
    );
}

#[test]
fn payload_escapes_names() {
    let mut config = Config::default();
    config.username = "a \"quoted\" \\ name".to_string();
    config.team_name = "tab\tteam".to_string();
    let json = stats(0, 0, 0, &[".we\"ird"]).to_json(&config);
    assert_eq!(
        json,
        "{ \"files_changed\": 0, \"insertions\": 0, \"deletions\": 0, \"extension\": [\".we\\\"ird\"], \"team_name\": \"tab\\tteam\", \"username\": \"a \\\"quoted\\\" \\\\ name\" }"
    );
}

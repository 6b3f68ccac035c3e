use sa_git_hook::input::{check_y_n, get_optional_input, get_required_input, input_value};
use sa_git_hook::installer::{self, repo_dir_answer, uninstall_refusal, UninstallRefusal};
use sa_git_hook::numbers::{decimal_string, parse_u32, parse_u64, IntErrorKind};
use sa_git_hook::post_commit::{self, poll_action, response_state, PollAction, ResponseState};
use sa_git_hook::setup::SetupConfig;
use sa_git_hook::text::{split_lines, split_words, trim_chars};

fn chars(s: &str) -> Vec<char> {
    s.chars().collect()
}

#[test]
fn yes_answers() {
    assert!(check_y_n("y"));
    assert!(check_y_n("Y"));
    assert!(!check_y_n("n"));
    assert!(!check_y_n("yes"));
    assert!(!check_y_n(""));
}

#[test]
fn answers_are_trimmed() {
    assert_eq!(input_value("  Blue team \r\n"), "Blue team");
    assert_eq!(get_required_input("\t\n"), None);
    assert_eq!(get_required_input(" ann\n"), Some("ann".to_string()));
    assert_eq!(get_optional_input("\n"), None);
    assert_eq!(get_optional_input("250\n"), Some("250".to_string()));
}

#[test]
fn log_lines() {
    assert_eq!(post_commit::log_format("Sent Diff Stats"), "[Git-Hook]: Sent Diff Stats");
    assert_eq!(installer::log_format("hi"), "[Commit-Collective-Installer]: hi");
}

#[test]
fn reply_states() {
    assert_eq!(response_state(Some(200)), ResponseState::Success);
    assert_eq!(response_state(Some(299)), ResponseState::Success);
    assert_eq!(response_state(Some(300)), ResponseState::Failed);
    assert_eq!(response_state(Some(404)), ResponseState::Failed);
    assert_eq!(response_state(None), ResponseState::Failed);
}

#[test]
fn polling_stops_at_timeout_or_end() {
    assert_eq!(poll_action(0, 3000, ResponseState::Running), PollAction::Sleep);
    assert_eq!(poll_action(3_000_000_000, 3000, ResponseState::Running), PollAction::Sleep);
    assert_eq!(poll_action(3_000_000_001, 3000, ResponseState::Running), PollAction::Stop);
    assert_eq!(poll_action(10, 3000, ResponseState::Success), PollAction::Stop);
    assert_eq!(poll_action(10, 3000, ResponseState::Failed), PollAction::Stop);
}

#[test]
fn repo_answers() {
    assert_eq!(repo_dir_answer("q\n"), None);
    assert_eq!(repo_dir_answer("  \n"), None);
    assert_eq!(repo_dir_answer(" /work/repo \n"), Some("/work/repo".to_string()));
    assert_eq!(repo_dir_answer("quit\n"), Some("quit".to_string()));
}

#[test]
fn setup_record() {
    let c = SetupConfig::create_from_input(" Blue\n", "ann@example.org\n", "Y\n");
    assert_eq!(c.team_name, "Blue");
    assert_eq!(c.source_allies_email, "ann@example.org");
    assert!(c.should_apply_globally);
    assert_eq!(
        c.file_contents(),
        "team_name=Blue\nsource_allies_email=ann@example.org\nshould_apply_globally=true\n"
    );
    let c = SetupConfig::create_from_input("a", "b", "no");
    assert!(!c.should_apply_globally);
    assert!(c.file_contents().ends_with("should_apply_globally=false\n"));
}

#[test]
fn integers_read_as_from_str() {
    assert_eq!(parse_u32(&chars("42")), Ok(42));
    assert_eq!(parse_u32(&chars("+7")), Ok(7));
    assert_eq!(parse_u32(&chars("")), Err(IntErrorKind::Empty));
    assert_eq!(parse_u32(&chars("+")), Err(IntErrorKind::InvalidDigit));
    assert_eq!(parse_u32(&chars("-1")), Err(IntErrorKind::InvalidDigit));
    assert_eq!(parse_u32(&chars("4294967295")), Ok(u32::MAX));
    assert_eq!(parse_u32(&chars("4294967296")), Err(IntErrorKind::PosOverflow));
    assert_eq!(parse_u32(&chars("99999999999x")), Err(IntErrorKind::PosOverflow));
    assert_eq!(parse_u64(&chars("18446744073709551615")), Ok(u64::MAX));
    for s in ["", "+", "-", "-1", "12a", "007", "4294967296", "+42"] {
        assert_eq!(parse_u32(&chars(s)).ok(), s.parse::<u32>().ok());
    }
    assert_eq!(IntErrorKind::Empty.message(), "".parse::<u32>().unwrap_err().to_string());
    assert_eq!(IntErrorKind::InvalidDigit.message(), "x".parse::<u32>().unwrap_err().to_string());
    assert_eq!(IntErrorKind::PosOverflow.message(), "99999999999".parse::<u32>().unwrap_err().to_string());
}

#[test]
fn decimals_as_display() {
    for n in [0u128, 7, 10, 3000, u64::MAX as u128, u128::MAX] {
        assert_eq!(decimal_string(n), n.to_string());
    }
}

#[test]
fn text_matches_std() {
    let samples = ["", " a b ", "\u{a0}x\u{3000}", "a\r\nb\n\nc\r", "\n", "x\ny\n", "  \t "];
    for s in samples {
        let t: String = trim_chars(&chars(s)).into_iter().collect();
        assert_eq!(t, s.trim());
        let l: Vec<String> = split_lines(&chars(s)).into_iter().map(|v| v.into_iter().collect()).collect();
        let expect: Vec<String> = s.lines().map(|x| x.to_string()).collect();
        assert_eq!(l, expect);
        let w: Vec<String> = split_words(&chars(s)).into_iter().map(|v| v.into_iter().collect()).collect();
        let expect: Vec<String> = s.split_whitespace().map(|x| x.to_string()).collect();
        assert_eq!(w, expect);
    }
}

fn parts(v: &[&str]) -> Vec<String> {
    v.iter().map(|e| e.to_string()).collect()
}

#[test]
fn uninstall_refusals() {
    let home = parts(&["/", "home", "ann"]);
    let name = parts(&[".commit_collective"]);
    assert_eq!(uninstall_refusal(&home, &home, &name), Some(UninstallRefusal::HomeDirectory));
    assert_eq!(
        uninstall_refusal(&parts(&["/", "home", "ann", "other"]), &home, &name),
        Some(UninstallRefusal::NotAppDirectory)
    );
    assert_eq!(uninstall_refusal(&parts(&["/", "home", "ann", ".commit_collective"]), &home, &name), None);
    assert_eq!(
        uninstall_refusal(&parts(&[".commit_collective"]), &home, &parts(&["a", ".commit_collective"])),
        Some(UninstallRefusal::NotAppDirectory)
    );
    assert_eq!(UninstallRefusal::HomeDirectory.message(), "Can't uninstall home directory");
    assert_eq!(UninstallRefusal::NotAppDirectory.message(), "Can't uninstall not app directory");
}

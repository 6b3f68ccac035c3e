use sa_git_hook::config::{value_from_config_line, Config, InputStep};
use sa_git_hook::numbers::IntErrorKind;

fn config(team: &str, user: &str, timeout: u64, endpoint: &str) -> Config {
    Config {
        team_name: team.to_string(),
        username: user.to_string(),
        timeout_millis: timeout,
        endpoint: endpoint.to_string(),
    }
}

#[test]
fn default_config() {
    let c = Config::default();
    assert_eq!(c.team_name, "");
    assert_eq!(c.username, "");
    assert_eq!(c.timeout_millis, 3000);
    assert_eq!(c.endpoint, "https://hnxgs8zjjd.execute-api.us-east-1.amazonaws.com/test/stuffs");
}

#[test]
fn file_contents_lines() {
    let c = config("Blue", "ann", 2500, "https://example.org/x");
    assert_eq!(
        c.file_contents(),
        "team_name=Blue\nusername=ann\ntimeout_milliseconds=2500\nendpoint=https://example.org/x\n"
    );
}

#[test]
fn config_round_trips_through_its_file() {
    let c = config("Team Blue", "ann", 18446744073709551615, "https://example.org/x?y");
    let text = c.file_contents();
    let lines: Vec<String> = text.split_inclusive('\n').map(|l| l.to_string()).collect();
    assert_eq!(lines.len(), 4);
    assert!(Config::config_head_readable(&lines[0], &lines[1], &lines[2]));
    assert!(value_from_config_line(&lines[3]).is_some());
    let back = Config::read_config(&lines[0], &lines[1], &lines[2], &lines[3]).unwrap();
    assert_eq!(back.team_name, c.team_name);
    assert_eq!(back.username, c.username);
    assert_eq!(back.timeout_millis, c.timeout_millis);
    assert_eq!(back.endpoint, c.endpoint);
}

#[test]
fn config_value_takes_text_between_first_two_equals() {
    assert_eq!(value_from_config_line("  username = ann  \n"), Some(" ann".to_string()));
    assert_eq!(value_from_config_line("endpoint=https://a/b?c=d\n"), Some("https://a/b?c".to_string()));
    assert_eq!(value_from_config_line("team_name=\n"), Some("".to_string()));
    assert_eq!(value_from_config_line("no value here\n"), None);
    assert_eq!(value_from_config_line(""), None);
}

#[test]
fn config_with_bad_timeout_is_an_error() {
    let r = Config::read_config("team_name=a\n", "username=b\n", "timeout_milliseconds=3s\n", "");
    assert!(Config::config_head_readable("team_name=a\n", "username=b\n", "timeout_milliseconds=3s\n"));
    assert_eq!(r.err(), Some(IntErrorKind::InvalidDigit));
    let r = Config::read_config("team_name=a\n", "username=b\n", "timeout_milliseconds=\n", "");
    assert_eq!(r.err(), Some(IntErrorKind::Empty));
}

#[test]
fn config_missing_lines_are_unreadable() {
    assert!(!Config::config_head_readable("team_name=a\n", "", ""));
    assert!(!Config::config_head_readable("team_name=a\n", "username=b\n", "timeout 5\n"));
}

#[test]
fn config_read_in_two_steps() {
    let head = Config::read_config_head("team_name=a\n", "username=b\n", "timeout_milliseconds=5\n")
        .unwrap();
    assert_eq!(head.timeout_millis, 5);
    let c = head.with_endpoint_line("endpoint=https://e/x\n");
    assert_eq!(c.team_name, "a");
    assert_eq!(c.username, "b");
    assert_eq!(c.endpoint, "https://e/x");
}

#[test]
fn read_input_asks_until_required_answers_are_given() {
    let s = Config::read_input("[H]");
    assert_eq!(s.prompt(), "[H]: What is your Team Name?");
    let s = match s.answer("   \n") {
        InputStep::Ask(s) => s,
        _ => panic!("expected the question again"),
    };
    assert_eq!(s.prompt(), "[H]: What is your Team Name?");
    let s = match s.answer(" Blue \n") {
        InputStep::Ask(s) => s,
        _ => panic!("expected the next question"),
    };
    assert_eq!(s.prompt(), "[H]: What is your Username?");
    let s = match s.answer("ann\n") {
        InputStep::Ask(s) => s,
        _ => panic!("expected the next question"),
    };
    assert_eq!(s.prompt(), "[H]: Desired Timeout in milliseconds (Default 3000 ms)? ");
    match s.answer("1500\n") {
        InputStep::Done(c) => {
            assert_eq!(c.team_name, "Blue");
            assert_eq!(c.username, "ann");
            assert_eq!(c.timeout_millis, 1500);
        }
        _ => panic!("expected a complete configuration"),
    }
}

#[test]
fn read_input_skipped_timeout_keeps_default() {
    let mut s = Config::read_input("h");
    for line in ["a\n", "b\n"] {
        s = match s.answer(line) {
            InputStep::Ask(s) => s,
            _ => panic!("expected a question"),
        };
    }
    match s.answer("\n") {
        InputStep::Done(c) => assert_eq!(c.timeout_millis, 3000),
        _ => panic!("expected a complete configuration"),
    }
}

#[test]
fn read_input_bad_timeout_fails() {
    let mut s = Config::read_input("h");
    for line in ["a\n", "b\n"] {
        s = match s.answer(line) {
            InputStep::Ask(s) => s,
            _ => panic!("expected a question"),
        };
    }
    match s.answer("-5\n") {
        InputStep::Failed(k) => assert_eq!(k, IntErrorKind::InvalidDigit),
        _ => panic!("expected a failure"),
    }
}

//! The hook's configuration: its defaults, the text of its file, reading that
//! text back, and the questions that fill it in.

use vstd::prelude::*;
use crate::numbers::{
    IntErrorKind, parse_unsigned, parse_u64, decimal, decimal_string, is_digit,
    lemma_decimal_round_trip, lemma_decimal_digits,
};
use crate::input::{get_required_input, get_optional_input};
use crate::text::{
    is_space, trim, trim_start, trim_end, copy_range, chars_of, trim_chars, string_from_chars,
};

verus! {

/// How long the hook waits for the remote endpoint, in milliseconds, unless
/// configured otherwise.
pub const DEFAULT_TIMEOUT_MILLIS: u64 = 3000;

/// The endpoint that receives the commit statistics unless configured otherwise.
pub open spec fn default_endpoint() -> Seq<char> {
    "https://hnxgs8zjjd.execute-api.us-east-1.amazonaws.com/test/stuffs"@
}

/// Who commits, for which team, and where the statistics go.
pub struct Config {
    pub team_name: String,
    pub username: String,
    /// How long to wait for the endpoint, in milliseconds.
    pub timeout_millis: u64,
    pub endpoint: String,
}

impl Default for Config {
    fn default() -> (r: Self)
        ensures
            r.team_name@ == Seq::<char>::empty(),
            r.username@ == Seq::<char>::empty(),
            r.timeout_millis == DEFAULT_TIMEOUT_MILLIS,
            r.endpoint@ == default_endpoint(),
    {
        Config {
            username: String::new(),
            team_name: String::new(),
            timeout_millis: DEFAULT_TIMEOUT_MILLIS,
            endpoint: String::from_str(
                "https://hnxgs8zjjd.execute-api.us-east-1.amazonaws.com/test/stuffs",
            ),
        }
    }
}

/// The largest `u64`.
pub open spec fn max_u64() -> int {
    0xffff_ffff_ffff_ffff
}

/// One line of the configuration file: `key=value`.
pub open spec fn config_line(key: Seq<char>, value: Seq<char>) -> Seq<char> {
    key + "="@ + value + "\n"@
}

/// The text of the configuration file of `c`.
pub open spec fn config_file(c: Config) -> Seq<char> {
    config_line("team_name"@, c.team_name@) + config_line("username"@, c.username@) + config_line(
        "timeout_milliseconds"@,
        decimal(c.timeout_millis as nat),
    ) + config_line("endpoint"@, c.endpoint@)
}

impl Config {
    /// The text that the configuration file holds for this configuration.
    pub fn file_contents(&self) -> (r: String)
        ensures
            r@ == config_file(*self),
    {
        let timeout = decimal_string(self.timeout_millis as u128);
        let mut r = String::from_str("team_name");
        r.append("=");
        r.append(self.team_name.as_str());
        r.append("\n");
        r.append("username");
        r.append("=");
        r.append(self.username.as_str());
        r.append("\n");
        r.append("timeout_milliseconds");
        r.append("=");
        r.append(timeout.as_str());
        r.append("\n");
        r.append("endpoint");
        r.append("=");
        r.append(self.endpoint.as_str());
        r.append("\n");
        r
    }
}

/// What follows the first `c` in `s`, if `c` occurs.
pub open spec fn after_char(s: Seq<char>, c: char) -> Option<Seq<char>>
    decreases s.len(),
{
    if s.len() == 0 {
        None
    } else if s[0] == c {
        Some(s.drop_first())
    } else {
        after_char(s.drop_first(), c)
    }
}

/// What comes before the first `c` in `s` (all of `s` if `c` does not occur).
pub open spec fn before_char(s: Seq<char>, c: char) -> Seq<char>
    decreases s.len(),
{
    if s.len() == 0 {
        s
    } else if s[0] == c {
        seq![]
    } else {
        seq![s[0]] + before_char(s.drop_first(), c)
    }
}

/// The value on a line of the configuration file: after trimming the line,
/// the text between its first `=` and the next `=` (or the end), if the line
/// has a `=` at all; the second item of `line.trim().split('=')`.
pub open spec fn config_value(line: Seq<char>) -> Option<Seq<char>> {
    match after_char(trim(line), '=') {
        Some(rest) => Some(before_char(rest, '=')),
        None => None,
    }
}

/// The index of the first `c` in `s` at or after `from`, or `s.len()`.
fn find_char(s: &Vec<char>, c: char, from: usize) -> (r: usize)
    requires
        from <= s@.len(),
    ensures
        from <= r <= s@.len(),
        forall|j: int| from <= j < r ==> s@[j] != c,
        r < s@.len() ==> s@[r as int] == c,
{
    let mut k = from;
    while k < s.len() && s[k] != c
        invariant
            from <= k <= s@.len(),
            forall|j: int| from <= j < k ==> s@[j] != c,
        decreases s@.len() - k,
    {
        k = k + 1;
    }
    k
}

/// `after_char` skips a prefix without `c`.
proof fn lemma_after_char_skip(s: Seq<char>, c: char, k: int)
    requires
        0 <= k <= s.len(),
        forall|j: int| 0 <= j < k ==> s[j] != c,
    ensures
        after_char(s, c) == after_char(s.skip(k), c),
    decreases k,
{
    if k > 0 {
        assert(s.drop_first().skip(k - 1) =~= s.skip(k));
        lemma_after_char_skip(s.drop_first(), c, k - 1);
    } else {
        assert(s.skip(0) =~= s);
    }
}

/// `before_char` keeps a prefix without `c`.
proof fn lemma_before_char_prefix(s: Seq<char>, c: char, k: int)
    requires
        0 <= k <= s.len(),
        forall|j: int| 0 <= j < k ==> s[j] != c,
    ensures
        before_char(s, c) == s.take(k) + before_char(s.skip(k), c),
    decreases k,
{
    if k > 0 {
        assert(s.drop_first().skip(k - 1) =~= s.skip(k));
        lemma_before_char_prefix(s.drop_first(), c, k - 1);
        assert(s.take(k) =~= seq![s[0]] + s.drop_first().take(k - 1));
    } else {
        assert(s.skip(0) =~= s);
        assert(s.take(0) =~= Seq::<char>::empty());
    }
}

/// The value on a line of the configuration file (see `config_value`); `None`
/// when the line has no `=`.
pub fn value_from_config_line(line: &str) -> (r: Option<String>)
    ensures
        match r {
            Some(v) => config_value(line@) == Some(v@),
            None => config_value(line@) is None,
        },
        r is Some <==> trim(line@).contains('='),
        r matches Some(v) ==> !v@.contains('='),
{
    proof {
        lemma_config_value(line@);
    }
    let chars = chars_of(line);
    let t = trim_chars(&chars);
    let n = t.len();
    let i = find_char(&t, '=', 0);
    proof {
        lemma_after_char_skip(t@, '=', i as int);
    }
    if i == n {
        assert(t@.skip(n as int) =~= Seq::<char>::empty());
        return None;
    }
    let ghost rest = t@.skip(i + 1);
    assert(t@.skip(i as int).drop_first() =~= rest);
    let j = find_char(&t, '=', i + 1);
    proof {
        lemma_before_char_prefix(rest, '=', j - i - 1);
        assert(rest.take(j - i - 1) =~= t@.subrange(i + 1, j as int));
        assert(rest.skip(j - i - 1) =~= t@.skip(j as int));
        if j < n {
            assert(t@.skip(j as int)[0] == '=');
        } else {
            assert(t@.skip(j as int) =~= Seq::<char>::empty());
        }
        assert(before_char(rest, '=') =~= t@.subrange(i + 1, j as int));
    }
    let v = copy_range(&t, i + 1, j);
    Some(string_from_chars(&v))
}

/// Whether reading these four lines of the configuration file finds a value
/// wherever it looks for one: on the first three lines, and on the fourth
/// when the third holds a valid timeout.
pub open spec fn config_lines_readable(
    team_line: Seq<char>,
    username_line: Seq<char>,
    timeout_line: Seq<char>,
    endpoint_line: Seq<char>,
) -> bool {
    &&& config_value(team_line) is Some
    &&& config_value(username_line) is Some
    &&& config_value(timeout_line) is Some
    &&& parse_unsigned(config_value(timeout_line)->0, max_u64()) is Ok ==> config_value(
        endpoint_line,
    ) is Some
}

/// What reading four lines of the configuration file gives: the team name,
/// the user name, the timeout in milliseconds and the endpoint, or why the
/// timeout is not a `u64`.
pub open spec fn read_config_lines(
    team_line: Seq<char>,
    username_line: Seq<char>,
    timeout_line: Seq<char>,
    endpoint_line: Seq<char>,
) -> Result<(Seq<char>, Seq<char>, int, Seq<char>), IntErrorKind> {
    match parse_unsigned(config_value(timeout_line)->0, max_u64()) {
        Ok(t) => Ok(
            (
                config_value(team_line)->0,
                config_value(username_line)->0,
                t,
                config_value(endpoint_line)->0,
            ),
        ),
        Err(k) => Err(k),
    }
}

/// Whether the first three lines of the configuration file each hold a value.
pub open spec fn config_head_readable(
    team_line: Seq<char>,
    username_line: Seq<char>,
    timeout_line: Seq<char>,
) -> bool {
    &&& config_value(team_line) is Some
    &&& config_value(username_line) is Some
    &&& config_value(timeout_line) is Some
}

/// The configuration read from the first three lines of its file, before the
/// line with the endpoint is read.
pub struct ConfigHead {
    pub team_name: String,
    pub username: String,
    pub timeout_millis: u64,
}

impl ConfigHead {
    /// The configuration, completed with the endpoint on the fourth line.
    pub fn with_endpoint_line(self, endpoint_line: &str) -> (r: Config)
        requires
            config_value(endpoint_line@) is Some,
        ensures
            r.team_name == self.team_name,
            r.username == self.username,
            r.timeout_millis == self.timeout_millis,
            r.endpoint@ == config_value(endpoint_line@)->0,
    {
        let endpoint = value_from_config_line(endpoint_line).unwrap();
        Config {
            team_name: self.team_name,
            username: self.username,
            timeout_millis: self.timeout_millis,
            endpoint,
        }
    }
}

impl Config {
    /// Whether `read_config_head` finds a value on each of these lines.
    pub fn config_head_readable(team_line: &str, username_line: &str, timeout_line: &str) -> (r:
        bool)
        ensures
            r == config_head_readable(team_line@, username_line@, timeout_line@),
    {
        value_from_config_line(team_line).is_some() && value_from_config_line(
            username_line,
        ).is_some() && value_from_config_line(timeout_line).is_some()
    }

    /// Reads the first three lines of the configuration file, each as
    /// `read_line` gives it: the team name, the user name, and the timeout,
    /// or why the timeout is not a `u64`.
    pub fn read_config_head(team_line: &str, username_line: &str, timeout_line: &str) -> (r:
        Result<ConfigHead, IntErrorKind>)
        requires
            config_head_readable(team_line@, username_line@, timeout_line@),
        ensures
            match parse_unsigned(config_value(timeout_line@)->0, max_u64()) {
                Ok(t) => {
                    &&& r is Ok
                    &&& r->Ok_0.team_name@ == config_value(team_line@)->0
                    &&& r->Ok_0.username@ == config_value(username_line@)->0
                    &&& r->Ok_0.timeout_millis as int == t
                },
                Err(k) => r == Err::<ConfigHead, IntErrorKind>(k),
            },
    {
        let team_name = value_from_config_line(team_line).unwrap();
        let username = value_from_config_line(username_line).unwrap();
        let timeout_text = value_from_config_line(timeout_line).unwrap();
        let tc = chars_of(timeout_text.as_str());
        match parse_u64(&tc) {
            Ok(timeout_millis) => Ok(ConfigHead { team_name, username, timeout_millis }),
            Err(k) => Err(k),
        }
    }

    /// Reads the configuration from the first four lines of its file, each as
    /// `read_line` gives it (an empty text past the end of the file).
    pub fn read_config(
        team_line: &str,
        username_line: &str,
        timeout_line: &str,
        endpoint_line: &str,
    ) -> (r: Result<Config, IntErrorKind>)
        requires
            config_lines_readable(team_line@, username_line@, timeout_line@, endpoint_line@),
        ensures
            match read_config_lines(team_line@, username_line@, timeout_line@, endpoint_line@) {
                Ok((team_name, username, timeout, endpoint)) => {
                    &&& r is Ok
                    &&& r->Ok_0.team_name@ == team_name
                    &&& r->Ok_0.username@ == username
                    &&& r->Ok_0.timeout_millis as int == timeout
                    &&& r->Ok_0.endpoint@ == endpoint
                },
                Err(k) => r == Err::<Config, IntErrorKind>(k),
            },
    {
        match Config::read_config_head(team_line, username_line, timeout_line) {
            Ok(head) => Ok(head.with_endpoint_line(endpoint_line)),
            Err(k) => Err(k),
        }
    }
}

/// Text that comes back unchanged from the configuration file: it holds no
/// `=` and no line break, and does not end in white space.
pub open spec fn config_text_ok(v: Seq<char>) -> bool {
    &&& !v.contains('=')
    &&& !v.contains('\n')
    &&& (v.len() == 0 || !is_space(v.last()))
}

/// The value read back from `key=value` is `value`.
proof fn lemma_config_line_value(key: Seq<char>, v: Seq<char>)
    requires
        key.len() > 0,
        !is_space(key[0]),
        !key.contains('='),
        !v.contains('='),
        v.len() == 0 || !is_space(v.last()),
    ensures
        config_value(config_line(key, v)) == Some(v),
{
    reveal_strlit("=");
    reveal_strlit("\n");
    let line = config_line(key, v);
    let body = key + "="@ + v;
    assert(line =~= body.push('\n'));
    assert(line[0] == key[0]);
    assert(trim_start(line) == line);
    assert(line.drop_last() =~= body);
    assert(trim_end(line) == trim_end(body));
    if v.len() == 0 {
        assert(body.last() == '=');
    } else {
        assert(body.last() == v.last());
    }
    assert(trim_end(body) == body);
    assert(trim(line) == body);
    assert forall|j: int| 0 <= j < key.len() implies body[j] != '=' by {
        assert(body[j] == key[j]);
    }
    lemma_after_char_skip(body, '=', key.len() as int);
    assert(body.skip(key.len() as int) =~= seq!['='] + v);
    assert((seq!['='] + v).drop_first() =~= v);
    lemma_before_char_prefix(v, '=', v.len() as int);
    assert(v.take(v.len() as int) =~= v);
    assert(v.skip(v.len() as int) =~= Seq::<char>::empty());
}

/// The configuration file gives back the configuration that was saved in it:
/// reading the four lines `key=value` of its text (`config_file`) yields the
/// team name, user name, timeout and endpoint of `c`, as long as none of the
/// texts holds `=` or a line break or ends in white space.
pub proof fn lemma_config_file_round_trip(c: Config)
    requires
        config_text_ok(c.team_name@),
        config_text_ok(c.username@),
        config_text_ok(c.endpoint@),
    ensures
        config_lines_readable(
            config_line("team_name"@, c.team_name@),
            config_line("username"@, c.username@),
            config_line("timeout_milliseconds"@, decimal(c.timeout_millis as nat)),
            config_line("endpoint"@, c.endpoint@),
        ),
        read_config_lines(
            config_line("team_name"@, c.team_name@),
            config_line("username"@, c.username@),
            config_line("timeout_milliseconds"@, decimal(c.timeout_millis as nat)),
            config_line("endpoint"@, c.endpoint@),
        ) == Ok::<(Seq<char>, Seq<char>, int, Seq<char>), IntErrorKind>(
            (c.team_name@, c.username@, c.timeout_millis as int, c.endpoint@),
        ),
{
    reveal_strlit("team_name");
    reveal_strlit("username");
    reveal_strlit("timeout_milliseconds");
    reveal_strlit("endpoint");
    let d = decimal(c.timeout_millis as nat);
    lemma_decimal_digits(c.timeout_millis as nat);
    lemma_decimal_round_trip(c.timeout_millis as nat, max_u64());
    assert(!d.contains('=')) by {
        if d.contains('=') {
            let j = choose|j: int| 0 <= j < d.len() && d[j] == '=';
            assert(is_digit(d[j]));
        }
    }
    assert(!is_space(d.last())) by {
        assert(is_digit(d[d.len() - 1]));
    }
    assert(!"team_name"@.contains('=')) by {
        if "team_name"@.contains('=') {
            let j = choose|j: int| 0 <= j < "team_name"@.len() && "team_name"@[j] == '=';
        }
    }
    assert(!"username"@.contains('=')) by {
        if "username"@.contains('=') {
            let j = choose|j: int| 0 <= j < "username"@.len() && "username"@[j] == '=';
        }
    }
    assert(!"timeout_milliseconds"@.contains('=')) by {
        if "timeout_milliseconds"@.contains('=') {
            let j = choose|j: int|
                0 <= j < "timeout_milliseconds"@.len() && "timeout_milliseconds"@[j] == '=';
        }
    }
    assert(!"endpoint"@.contains('=')) by {
        if "endpoint"@.contains('=') {
            let j = choose|j: int| 0 <= j < "endpoint"@.len() && "endpoint"@[j] == '=';
        }
    }
    lemma_config_line_value("team_name"@, c.team_name@);
    lemma_config_line_value("username"@, c.username@);
    lemma_config_line_value("timeout_milliseconds"@, d);
    lemma_config_line_value("endpoint"@, c.endpoint@);
}

/// The questions that fill in a configuration, in the order they are asked.
#[derive(Debug, Clone, Copy, PartialEq, Eq, Structural)]
pub enum Question {
    TeamName,
    Username,
    Timeout,
}

/// The text of a question, after `header`; `timeout_millis` is the timeout
/// that stands if the last question is skipped.
pub open spec fn question_text(header: Seq<char>, q: Question, timeout_millis: u64) -> Seq<char> {
    match q {
        Question::TeamName => header + ": What is your Team Name?"@,
        Question::Username => header + ": What is your Username?"@,
        Question::Timeout => header + ": Desired Timeout in milliseconds (Default "@ + decimal(
            timeout_millis as nat,
        ) + " ms)? "@,
    }
}

/// A configuration being filled in from the user's answers: the team name and
/// the user name must be given, the timeout may be skipped.
pub struct ConfigInput {
    header: String,
    question: Question,
    config: Config,
}

/// What an answer leads to.
pub enum InputStep {
    /// The next question (or the same one again, after an empty answer).
    Ask(ConfigInput),
    /// The configuration is complete.
    Done(Config),
    /// The timeout given is not a `u64`.
    Failed(IntErrorKind),
}

impl ConfigInput {
    /// Every question answered so far has a non-empty answer.
    #[verifier::type_invariant]
    spec fn answered_so_far(self) -> bool {
        &&& self.question != Question::TeamName ==> self.config.team_name@.len() > 0
        &&& self.question == Question::Timeout ==> self.config.username@.len() > 0
    }

    /// The text that begins each question.
    pub closed spec fn header(self) -> Seq<char> {
        self.header@
    }

    /// The question to ask.
    pub closed spec fn question(self) -> Question {
        self.question
    }

    /// The configuration as filled in so far.
    pub closed spec fn config(self) -> Config {
        self.config
    }

    /// The text of the question to ask now.
    pub fn prompt(&self) -> (r: String)
        ensures
            r@ == question_text(self.header(), self.question(), self.config().timeout_millis),
    {
        let mut r = String::from_str(self.header.as_str());
        match self.question {
            Question::TeamName => {
                r.append(": What is your Team Name?");
            },
            Question::Username => {
                r.append(": What is your Username?");
            },
            Question::Timeout => {
                let d = decimal_string(self.config.timeout_millis as u128);
                r.append(": Desired Timeout in milliseconds (Default ");
                r.append(d.as_str());
                r.append(" ms)? ");
            },
        }
        r
    }

    /// Takes the line the user typed in answer to the current question. An
    /// empty answer to the team name or the user name asks the question
    /// again; an empty answer to the timeout keeps the timeout as it is.
    pub fn answer(self, line: &str) -> (r: InputStep)
        ensures
            ({
                let v = trim(line@);
                let c = self.config();
                match self.question() {
                    Question::TeamName => if v.len() == 0 {
                        r matches InputStep::Ask(s) && s.header() == self.header() && s.question()
                            == Question::TeamName && s.config() == c
                    } else {
                        r matches InputStep::Ask(s) && s.header() == self.header() && s.question()
                            == Question::Username && s.config().team_name@ == v
                            && s.config().username == c.username && s.config().timeout_millis
                            == c.timeout_millis && s.config().endpoint == c.endpoint
                    },
                    Question::Username => if v.len() == 0 {
                        r matches InputStep::Ask(s) && s.header() == self.header() && s.question()
                            == Question::Username && s.config() == c
                    } else {
                        r matches InputStep::Ask(s) && s.header() == self.header() && s.question()
                            == Question::Timeout && s.config().username@ == v
                            && s.config().team_name == c.team_name && s.config().timeout_millis
                            == c.timeout_millis && s.config().endpoint == c.endpoint
                    },
                    Question::Timeout => if v.len() == 0 {
                        r == InputStep::Done(c)
                    } else {
                        match parse_unsigned(v, max_u64()) {
                            Ok(t) => r matches InputStep::Done(d) && d.timeout_millis == t
                                && d.team_name == c.team_name && d.username == c.username
                                && d.endpoint == c.endpoint,
                            Err(k) => r == InputStep::Failed(k),
                        }
                    },
                }
            }),
            r matches InputStep::Done(d) ==> d.team_name@.len() > 0 && d.username@.len() > 0,
    {
        proof {
            use_type_invariant(&self);
        }
        let ConfigInput { header, question, mut config } = self;
        match question {
            Question::TeamName => match get_required_input(line) {
                None => InputStep::Ask(ConfigInput { header, question, config }),
                Some(v) => {
                    config.team_name = v;
                    InputStep::Ask(ConfigInput { header, question: Question::Username, config })
                },
            },
            Question::Username => match get_required_input(line) {
                None => InputStep::Ask(ConfigInput { header, question, config }),
                Some(v) => {
                    config.username = v;
                    InputStep::Ask(ConfigInput { header, question: Question::Timeout, config })
                },
            },
            Question::Timeout => match get_optional_input(line) {
                None => InputStep::Done(config),
                Some(v) => {
                    let vc = chars_of(v.as_str());
                    match parse_u64(&vc) {
                        Ok(t) => {
                            config.timeout_millis = t;
                            InputStep::Done(config)
                        },
                        Err(k) => InputStep::Failed(k),
                    }
                },
            },
        }
    }
}

impl Config {
    /// Starts filling in a configuration from the user's answers, each
    /// question beginning with `header`, from the defaults.
    pub fn read_input(header: &str) -> (r: ConfigInput)
        ensures
            r.header() == header@,
            r.question() == Question::TeamName,
            r.config().team_name@ == Seq::<char>::empty(),
            r.config().username@ == Seq::<char>::empty(),
            r.config().timeout_millis == DEFAULT_TIMEOUT_MILLIS,
            r.config().endpoint@ == default_endpoint(),
    {
        ConfigInput {
            header: String::from_str(header),
            question: Question::TeamName,
            config: Config::default(),
        }
    }
}

/// `before_char` and `after_char` split `s` at its first `c`.
proof fn lemma_split_at_char(s: Seq<char>, c: char)
    ensures
        after_char(s, c) is Some <==> s.contains(c),
        !before_char(s, c).contains(c),
        before_char(s, c).len() <= s.len(),
        s.take(before_char(s, c).len() as int) == before_char(s, c),
        before_char(s, c).len() < s.len() ==> s[before_char(s, c).len() as int] == c,
        after_char(s, c) matches Some(r) ==> s == before_char(s, c) + seq![c] + r,
    decreases s.len(),
{
    if s.len() == 0 {
        assert(s.take(0) =~= before_char(s, c));
    } else if s[0] == c {
        assert(s.take(0) =~= before_char(s, c));
        assert(s =~= before_char(s, c) + seq![c] + s.drop_first());
    } else {
        let p = s.drop_first();
        lemma_split_at_char(p, c);
        let b = before_char(s, c);
        assert(b == seq![s[0]] + before_char(p, c));
        assert(s.take(b.len() as int) =~= b);
        assert(!b.contains(c)) by {
            if b.contains(c) {
                let k = choose|k: int| 0 <= k < b.len() && b[k] == c;
                if k > 0 {
                    assert(before_char(p, c)[k - 1] == c);
                }
            }
        }
        if s.contains(c) {
            let k = choose|k: int| 0 <= k < s.len() && s[k] == c;
            assert(p[k - 1] == c);
        }
        if p.contains(c) {
            let k = choose|k: int| 0 <= k < p.len() && p[k] == c;
            assert(s[k + 1] == c);
        }
        if let Some(r) = after_char(s, c) {
            assert(after_char(p, c) == Some(r));
            assert(p == before_char(p, c) + seq![c] + r);
            assert(s =~= seq![s[0]] + p);
            assert(s =~= b + seq![c] + r);
        }
    }
}

/// The value on a line of the configuration file is the text between the
/// first `=` of the trimmed line and the next `=` (or the end of the line);
/// there is one exactly when the trimmed line holds a `=`.
pub proof fn lemma_config_value(line: Seq<char>)
    ensures
        config_value(line) is Some <==> trim(line).contains('='),
        config_value(line) matches Some(v) ==> exists|i: int, j: int|
            #![trigger trim(line).subrange(i + 1, j)]
            0 <= i < j <= trim(line).len() && trim(line)[i] == '=' && (forall|k: int|
                0 <= k < i ==> trim(line)[k] != '=') && v == trim(line).subrange(i + 1, j)
                && !v.contains('=') && (j == trim(line).len() || trim(line)[j] == '='),
{
    let t = trim(line);
    lemma_split_at_char(t, '=');
    if let Some(r) = after_char(t, '=') {
        lemma_split_at_char(r, '=');
        let b = before_char(t, '=');
        let v = before_char(r, '=');
        let i = b.len() as int;
        let j = i + 1 + v.len();
        assert(t[i] == '=');
        assert forall|k: int| 0 <= k < i implies t[k] != '=' by {
            assert(t[k] == b[k]);
        }
        assert(v =~= t.subrange(i + 1, j)) by {
            assert forall|k: int| 0 <= k < v.len() implies v[k] == t[i + 1 + k] by {
                assert(r.take(v.len() as int)[k] == r[k]);
            }
        }
        if j < t.len() {
            assert(t[j] == r[v.len() as int]);
        }
    }
}

} // verus!

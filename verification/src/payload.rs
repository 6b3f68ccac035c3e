//! The JSON payload that reports the statistics of a commit, and their
//! human-readable summary.

use vstd::prelude::*;
use crate::config::Config;
use crate::diff_stats::{DiffStats, DiffStatsView, string_views};
use crate::numbers::{decimal, decimal_string};
use crate::text::{chars_of, string_from_chars, append_chars};

verus! {

/// The hexadecimal digit (lowercase) of `d < 16`.
pub open spec fn hex_digit(d: int) -> char {
    if d <= 0 {
        '0'
    } else if d == 1 {
        '1'
    } else if d == 2 {
        '2'
    } else if d == 3 {
        '3'
    } else if d == 4 {
        '4'
    } else if d == 5 {
        '5'
    } else if d == 6 {
        '6'
    } else if d == 7 {
        '7'
    } else if d == 8 {
        '8'
    } else if d == 9 {
        '9'
    } else if d == 10 {
        'a'
    } else if d == 11 {
        'b'
    } else if d == 12 {
        'c'
    } else if d == 13 {
        'd'
    } else if d == 14 {
        'e'
    } else {
        'f'
    }
}

/// The character of a hexadecimal digit below sixteen.
fn hex_char(d: u32) -> (c: char)
    requires
        d < 16,
    ensures
        c == hex_digit(d as int),
{
    match d {
        0 => '0',
        1 => '1',
        2 => '2',
        3 => '3',
        4 => '4',
        5 => '5',
        6 => '6',
        7 => '7',
        8 => '8',
        9 => '9',
        10 => 'a',
        11 => 'b',
        12 => 'c',
        13 => 'd',
        14 => 'e',
        _ => 'f',
    }
}

/// How a character is written inside a JSON string: quotation mark and
/// backslash behind a backslash, the control characters (below U+0020) as
/// `\b`, `\f`, `\n`, `\r`, `\t` or `\u00XX`, every other character as itself.
pub open spec fn json_escape_char(c: char) -> Seq<char> {
    if c == '"' {
        seq!['\\', '"']
    } else if c == '\\' {
        seq!['\\', '\\']
    } else if c == '\u{8}' {
        seq!['\\', 'b']
    } else if c == '\u{c}' {
        seq!['\\', 'f']
    } else if c == '\n' {
        seq!['\\', 'n']
    } else if c == '\r' {
        seq!['\\', 'r']
    } else if c == '\t' {
        seq!['\\', 't']
    } else if (c as int) < 0x20 {
        seq!['\\', 'u', '0', '0', hex_digit((c as int) / 16), hex_digit((c as int) % 16)]
    } else {
        seq![c]
    }
}

/// `s` as the contents of a JSON string.
pub open spec fn json_escape(s: Seq<char>) -> Seq<char>
    decreases s.len(),
{
    if s.len() == 0 {
        seq![]
    } else {
        json_escape(s.drop_last()) + json_escape_char(s.last())
    }
}

/// Appends `c` as written inside a JSON string.
fn push_escaped_char(out: &mut Vec<char>, c: char)
    ensures
        final(out)@ == old(out)@ + json_escape_char(c),
{
    let ghost before = out@;
    if c == '"' {
        out.push('\\');
        out.push('"');
    } else if c == '\\' {
        out.push('\\');
        out.push('\\');
    } else if c == '\u{8}' {
        out.push('\\');
        out.push('b');
    } else if c == '\u{c}' {
        out.push('\\');
        out.push('f');
    } else if c == '\n' {
        out.push('\\');
        out.push('n');
    } else if c == '\r' {
        out.push('\\');
        out.push('r');
    } else if c == '\t' {
        out.push('\\');
        out.push('t');
    } else if (c as u32) < 0x20 {
        let code = c as u32;
        out.push('\\');
        out.push('u');
        out.push('0');
        out.push('0');
        out.push(hex_char(code / 16));
        out.push(hex_char(code % 16));
    } else {
        out.push(c);
    }
    assert(out@ =~= before + json_escape_char(c));
}

/// Appends `s` as the contents of a JSON string.
fn push_escaped(out: &mut Vec<char>, s: &Vec<char>)
    ensures
        final(out)@ == old(out)@ + json_escape(s@),
{
    let n = s.len();
    let mut k: usize = 0;
    assert(s@.take(0) =~= Seq::<char>::empty());
    while k < n
        invariant
            k <= n == s@.len(),
            out@ == old(out)@ + json_escape(s@.take(k as int)),
        decreases n - k,
    {
        assert(s@.take(k + 1).drop_last() =~= s@.take(k as int));
        assert(s@.take(k + 1).last() == s@[k as int]);
        push_escaped_char(out, s[k]);
        k = k + 1;
    }
    assert(s@.take(n as int) =~= s@);
}

/// `"key": value`, one entry of a JSON object.
pub open spec fn json_pair(key: Seq<char>, value: Seq<char>) -> Seq<char> {
    "\""@ + key + "\": "@ + value
}

/// `value` as a JSON string: in double quotes, escaped.
pub open spec fn quoted(value: Seq<char>) -> Seq<char> {
    seq!['"'] + json_escape(value) + seq!['"']
}

/// Each extension as a JSON string followed by a comma, all run together.
pub open spec fn extension_items(exts: Seq<Seq<char>>) -> Seq<char>
    decreases exts.len(),
{
    if exts.len() == 0 {
        seq![]
    } else {
        extension_items(exts.drop_last()) + quoted(exts.last()) + seq![',']
    }
}

/// `s` without its last character, if it has one.
pub open spec fn without_last(s: Seq<char>) -> Seq<char> {
    if s.len() > 0 {
        s.drop_last()
    } else {
        s
    }
}

/// The extensions as a JSON array of strings: `[".a",".b"]`.
pub open spec fn extensions_json(exts: Seq<Seq<char>>) -> Seq<char> {
    seq!['['] + without_last(extension_items(exts)) + seq![']']
}

/// The JSON payload of the statistics `stats` of a commit by `username` of
/// `team_name`.
pub open spec fn diff_json(stats: DiffStatsView, team_name: Seq<char>, username: Seq<char>) -> Seq<
    char,
> {
    "{ "@ + json_pair("files_changed"@, decimal(stats.files_changed as nat)) + ", "@ + json_pair(
        "insertions"@,
        decimal(stats.insertions as nat),
    ) + ", "@ + json_pair("deletions"@, decimal(stats.deletions as nat)) + ", "@ + json_pair(
        "extension"@,
        extensions_json(stats.extensions),
    ) + ", "@ + json_pair("team_name"@, quoted(team_name)) + ", "@ + json_pair(
        "username"@,
        quoted(username),
    ) + " }"@
}

/// `"key": value`.
pub fn generate_json_key_value_string(key: &str, value: &str) -> (r: String)
    ensures
        r@ == json_pair(key@, value@),
{
    let mut r = String::from_str("\"");
    r.append(key);
    r.append("\": ");
    r.append(value);
    r
}

/// Appends `value` as a JSON string.
fn push_quoted(out: &mut Vec<char>, value: &str)
    ensures
        final(out)@ == old(out)@ + quoted(value@),
{
    let chars = chars_of(value);
    out.push('"');
    push_escaped(out, &chars);
    out.push('"');
    assert(out@ =~= old(out)@ + quoted(value@));
}

/// `value` as a JSON string: in double quotes, with quotation marks,
/// backslashes and control characters escaped.
pub fn value_string(value: &str) -> (r: String)
    ensures
        r@ == quoted(value@),
        r@.len() >= 2,
        r@[0] == '"',
        r@.last() == '"',
        json_decodes(r@.subrange(1, r@.len() - 1), value@),
{
    proof {
        lemma_json_escape(value@);
        assert(quoted(value@).subrange(1, quoted(value@).len() - 1) =~= json_escape(value@));
    }
    let mut out: Vec<char> = Vec::new();
    push_quoted(&mut out, value);
    assert(out@ =~= quoted(value@));
    string_from_chars(&out)
}

impl DiffStats {
    /// The extensions as a JSON array of strings.
    pub fn extensions_to_string(&self) -> (r: String)
        ensures
            r@ == extensions_json(self@.extensions),
    {
        let exts = self.extensions();
        let ghost ev = self@.extensions;
        let n = exts.len();
        let mut items: Vec<char> = Vec::new();
        assert(ev.take(0) =~= Seq::<Seq<char>>::empty());
        for i in 0..n
            invariant
                n == exts@.len() == ev.len(),
                ev == string_views(exts@),
                items@ == extension_items(ev.take(i as int)),
        {
            assert(ev.take(i + 1).drop_last() =~= ev.take(i as int));
            assert(ev.take(i + 1).last() == exts@[i as int]@);
            push_quoted(&mut items, exts[i].as_str());
            items.push(',');
            assert(items@ =~= extension_items(ev.take(i + 1)));
        }
        assert(ev.take(n as int) =~= ev);
        if items.len() > 0 {
            items.pop();
        }
        let mut out: Vec<char> = Vec::new();
        out.push('[');
        append_chars(&mut out, &items);
        out.push(']');
        assert(out@ =~= extensions_json(ev));
        string_from_chars(&out)
    }

    /// The JSON payload that reports these statistics for the user and team
    /// of `config`.
    pub fn to_json(&self, config: &Config) -> (r: String)
        ensures
            r@ == diff_json(self@, config.team_name@, config.username@),
    {
        let files = decimal_string(self.files_changed() as u128);
        let ins = decimal_string(self.insertions() as u128);
        let del = decimal_string(self.deletions() as u128);
        let exts = self.extensions_to_string();
        let team = value_string(config.team_name.as_str());
        let user = value_string(config.username.as_str());
        let mut r = String::from_str("{ ");
        r.append(generate_json_key_value_string("files_changed", files.as_str()).as_str());
        r.append(", ");
        r.append(generate_json_key_value_string("insertions", ins.as_str()).as_str());
        r.append(", ");
        r.append(generate_json_key_value_string("deletions", del.as_str()).as_str());
        r.append(", ");
        r.append(generate_json_key_value_string("extension", exts.as_str()).as_str());
        r.append(", ");
        r.append(generate_json_key_value_string("team_name", team.as_str()).as_str());
        r.append(", ");
        r.append(generate_json_key_value_string("username", user.as_str()).as_str());
        r.append(" }");
        r
    }
}

/// The `Debug` text of a string: the string in double quotes, with std's
/// escapes for quotes, backslashes and special characters.
pub uninterp spec fn debug_text(s: Seq<char>) -> Seq<char>;

/// std's `Debug` formatting of a `str` (`format!("{:?}", s)`). Its result is
/// a function of `s` alone, named `debug_text`; the escaping rules are not
/// stated.
#[verifier::external_body]
fn debug_string(s: &str) -> (r: String)
    ensures
        r@ == debug_text(s@),
{
    format!("{:?}", s)
}

/// The `Debug` texts of the extensions, separated by `, `.
pub open spec fn debug_items(exts: Seq<Seq<char>>) -> Seq<char>
    decreases exts.len(),
{
    if exts.len() == 0 {
        seq![]
    } else if exts.len() == 1 {
        debug_text(exts[0])
    } else {
        debug_items(exts.drop_last()) + ", "@ + debug_text(exts.last())
    }
}

/// The human-readable summary of the statistics.
pub open spec fn stats_text(stats: DiffStatsView) -> Seq<char> {
    "insertions: "@ + decimal(stats.insertions as nat) + ", deletions: "@ + decimal(
        stats.deletions as nat,
    ) + ", files_changed: "@ + decimal(stats.files_changed as nat) + " extensions: {"@
        + debug_items(stats.extensions) + "}"@
}

impl DiffStats {
    /// A human-readable summary: the three counts, then the set of extensions.
    pub fn to_display_string(&self) -> (r: String)
        ensures
            r@ == stats_text(self@),
    {
        let exts = self.extensions();
        let ghost ev = self@.extensions;
        let n = exts.len();
        let mut items = String::new();
        assert(ev.take(0) =~= Seq::<Seq<char>>::empty());
        for i in 0..n
            invariant
                n == exts@.len() == ev.len(),
                ev == string_views(exts@),
                items@ == debug_items(ev.take(i as int)),
        {
            assert(ev.take(i + 1).drop_last() =~= ev.take(i as int));
            assert(ev.take(i + 1).last() == exts@[i as int]@);
            let d = debug_string(exts[i].as_str());
            if i > 0 {
                items.append(", ");
            } else {
                assert(ev.take(1)[0] == ev.take(1).last());
            }
            items.append(d.as_str());
        }
        assert(ev.take(n as int) =~= ev);
        let mut r = String::from_str("insertions: ");
        r.append(decimal_string(self.insertions() as u128).as_str());
        r.append(", deletions: ");
        r.append(decimal_string(self.deletions() as u128).as_str());
        r.append(", files_changed: ");
        r.append(decimal_string(self.files_changed() as u128).as_str());
        r.append(" extensions: {");
        r.append(items.as_str());
        r.append("}");
        r
    }
}

/// The character that a JSON two-character escape `\x` stands for, given `x`.
pub open spec fn json_short_escape(x: char) -> Option<char> {
    if x == '"' {
        Some('"')
    } else if x == '\\' {
        Some('\\')
    } else if x == '/' {
        Some('/')
    } else if x == 'b' {
        Some('\u{8}')
    } else if x == 'f' {
        Some('\u{c}')
    } else if x == 'n' {
        Some('\n')
    } else if x == 'r' {
        Some('\r')
    } else if x == 't' {
        Some('\t')
    } else {
        None
    }
}

/// The value of a hexadecimal digit (either case), or -1.
pub open spec fn hex_value(c: char) -> int {
    if '0' <= c && c <= '9' {
        c as int - '0' as int
    } else if 'a' <= c && c <= 'f' {
        c as int - 'a' as int + 10
    } else if 'A' <= c && c <= 'F' {
        c as int - 'A' as int + 10
    } else {
        -1
    }
}

/// The code of four hexadecimal digits, or -1.
pub open spec fn hex4(a: char, b: char, c: char, d: char) -> int {
    if hex_value(a) >= 0 && hex_value(b) >= 0 && hex_value(c) >= 0 && hex_value(d) >= 0 {
        ((hex_value(a) * 16 + hex_value(b)) * 16 + hex_value(c)) * 16 + hex_value(d)
    } else {
        -1
    }
}

/// Whether `s`, the text between the quotation marks of a JSON string, is
/// valid and stands for the characters `v` (RFC 8259, section 7): a
/// backslash begins `\"`, `\\`, `\/`, `\b`, `\f`, `\n`, `\r`, `\t` or
/// `\uXXXX`; any other character stands for itself, except that an
/// unescaped quotation mark or control character is not allowed.
pub open spec fn json_decodes(s: Seq<char>, v: Seq<char>) -> bool
    decreases s.len(),
{
    if s.len() == 0 {
        v.len() == 0
    } else if v.len() == 0 {
        false
    } else if s[0] == '\\' {
        if s.len() >= 2 && json_short_escape(s[1]) == Some(v[0]) {
            json_decodes(s.skip(2), v.drop_first())
        } else if s.len() >= 6 && s[1] == 'u' && hex4(s[2], s[3], s[4], s[5]) == v[0] as int {
            json_decodes(s.skip(6), v.drop_first())
        } else {
            false
        }
    } else {
        &&& s[0] != '"'
        &&& s[0] as int >= 0x20
        &&& s[0] == v[0]
        &&& json_decodes(s.drop_first(), v.drop_first())
    }
}

/// Decoding runs on over joined texts.
proof fn lemma_json_decodes_append(a: Seq<char>, x: Seq<char>, b: Seq<char>, y: Seq<char>)
    requires
        json_decodes(a, x),
        json_decodes(b, y),
    ensures
        json_decodes(a + b, x + y),
    decreases a.len(),
{
    if a.len() > 0 {
        let s = a + b;
        let v = x + y;
        assert(v.drop_first() =~= x.drop_first() + y);
        assert(s[0] == a[0]);
        assert(v[0] == x[0]);
        if a[0] == '\\' {
            assert(s[1] == a[1]);
            if a.len() >= 2 && json_short_escape(a[1]) == Some(x[0]) {
                lemma_json_decodes_append(a.skip(2), x.drop_first(), b, y);
                assert(s.skip(2) =~= a.skip(2) + b);
            } else {
                assert(s[2] == a[2] && s[3] == a[3] && s[4] == a[4] && s[5] == a[5]);
                lemma_json_decodes_append(a.skip(6), x.drop_first(), b, y);
                assert(s.skip(6) =~= a.skip(6) + b);
            }
        } else {
            lemma_json_decodes_append(a.drop_first(), x.drop_first(), b, y);
            assert(s.drop_first() =~= a.drop_first() + b);
        }
    }
}

/// A hexadecimal digit reads back as its value.
proof fn lemma_hex_digit(d: int)
    requires
        0 <= d < 16,
    ensures
        hex_value(hex_digit(d)) == d,
{
}

/// The written form of one character decodes to that character.
proof fn lemma_json_escape_char(c: char)
    ensures
        json_decodes(json_escape_char(c), seq![c]),
{
    let e = json_escape_char(c);
    let one = seq![c];
    assert(one.drop_first() =~= Seq::<char>::empty());
    assert(json_decodes(Seq::<char>::empty(), Seq::<char>::empty()));
    if c == '"' || c == '\\' || c == '\u{8}' || c == '\u{c}' || c == '\n' || c == '\r' || c
        == '\t' {
        assert(e.skip(2) =~= Seq::<char>::empty());
        assert(e[0] == '\\');
        assert(json_short_escape(e[1]) == Some(c));
    } else if (c as int) < 0x20 {
        lemma_hex_digit((c as int) / 16);
        lemma_hex_digit((c as int) % 16);
        assert(e.skip(6) =~= Seq::<char>::empty());
        assert(hex4(e[2], e[3], e[4], e[5]) == c as int);
        assert(e[0] == '\\' && e[1] == 'u');
        assert(json_short_escape(e[1]) is None);
    } else {
        assert(e.drop_first() =~= Seq::<char>::empty());
        assert(e[0] == c);
    }
}

/// Escaping gives valid JSON string contents that decode back to the value,
/// and leaves every character other than a quotation mark, a backslash or a
/// control character (below U+0020) as it is.
pub proof fn lemma_json_escape(v: Seq<char>)
    ensures
        json_decodes(json_escape(v), v),
        forall|c: char|
            !(c == '"' || c == '\\' || (c as int) < 0x20) ==> #[trigger] json_escape_char(c)
                == seq![c],
    decreases v.len(),
{
    if v.len() > 0 {
        lemma_json_escape(v.drop_last());
        lemma_json_escape_char(v.last());
        lemma_json_decodes_append(
            json_escape(v.drop_last()),
            v.drop_last(),
            json_escape_char(v.last()),
            seq![v.last()],
        );
        assert(v.drop_last() + seq![v.last()] =~= v);
    }
}

/// The extensions as a JSON array: `[]` for none, each as a JSON string, the
/// strings separated by single commas.
pub proof fn lemma_extensions_json(exts: Seq<Seq<char>>, e: Seq<char>)
    ensures
        extensions_json(Seq::<Seq<char>>::empty()) == seq!['[', ']'],
        extensions_json(seq![e]) == seq!['['] + quoted(e) + seq![']'],
        exts.len() > 0 ==> extensions_json(exts.push(e)) == extensions_json(exts).drop_last()
            + seq![','] + quoted(e) + seq![']'],
{
    assert(extensions_json(Seq::<Seq<char>>::empty()) =~= seq!['[', ']']);
    let one = seq![e];
    assert(one.drop_last() =~= Seq::<Seq<char>>::empty());
    assert(extension_items(one) =~= quoted(e) + seq![',']);
    assert(without_last(extension_items(one)) =~= quoted(e));
    assert(extensions_json(one) =~= seq!['['] + quoted(e) + seq![']']);
    if exts.len() > 0 {
        let items = extension_items(exts);
        assert(exts.push(e).drop_last() =~= exts);
        assert(items.len() > 0 && items.last() == ',') by {
            assert(items == extension_items(exts.drop_last()) + quoted(exts.last()) + seq![',']);
        }
        assert(without_last(items) + seq![','] =~= items);
        assert(extensions_json(exts.push(e)) =~= extensions_json(exts).drop_last() + seq![',']
            + quoted(e) + seq![']']);
    }
}

} // verus!

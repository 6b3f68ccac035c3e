//! Character-level text handling: white space, trimming, splitting into lines
//! and words, as `str::trim`, `str::lines` and `str::split_whitespace` define them.

use vstd::prelude::*;

verus! {

/// The Unicode `White_Space` property, which is what `char::is_whitespace`,
/// `str::trim` and `str::split_whitespace` mean by white space.
pub open spec fn is_space(c: char) -> bool {
    ||| ('\u{9}' <= c && c <= '\u{d}')
    ||| c == ' '
    ||| c == '\u{85}'
    ||| c == '\u{a0}'
    ||| c == '\u{1680}'
    ||| ('\u{2000}' <= c && c <= '\u{200a}')
    ||| c == '\u{2028}'
    ||| c == '\u{2029}'
    ||| c == '\u{202f}'
    ||| c == '\u{205f}'
    ||| c == '\u{3000}'
}

/// Decides `is_space`.
pub fn is_space_char(c: char) -> (r: bool)
    ensures
        r == is_space(c),
{
    ('\u{9}' <= c && c <= '\u{d}') || c == ' ' || c == '\u{85}' || c == '\u{a0}' || c
        == '\u{1680}' || ('\u{2000}' <= c && c <= '\u{200a}') || c == '\u{2028}' || c
        == '\u{2029}' || c == '\u{202f}' || c == '\u{205f}' || c == '\u{3000}'
}

/// `s` without its leading white space.
pub open spec fn trim_start(s: Seq<char>) -> Seq<char>
    decreases s.len(),
{
    if s.len() > 0 && is_space(s[0]) {
        trim_start(s.drop_first())
    } else {
        s
    }
}

/// `s` without its trailing white space.
pub open spec fn trim_end(s: Seq<char>) -> Seq<char>
    decreases s.len(),
{
    if s.len() > 0 && is_space(s.last()) {
        trim_end(s.drop_last())
    } else {
        s
    }
}

/// `s` without leading and trailing white space (`str::trim`).
pub open spec fn trim(s: Seq<char>) -> Seq<char> {
    trim_end(trim_start(s))
}

/// A line without the carriage return that ended it.
pub open spec fn strip_cr(line: Seq<char>) -> Seq<char> {
    if line.len() > 0 && line.last() == '\r' {
        line.drop_last()
    } else {
        line
    }
}

/// The lines of `s`, given that the line being read so far is `cur`: a line
/// ends at `\n` (and then loses a `\r` just before it); a last line without
/// `\n` counts only when it is not empty.
pub open spec fn lines_from(s: Seq<char>, cur: Seq<char>) -> Seq<Seq<char>>
    decreases s.len(),
{
    if s.len() == 0 {
        if cur.len() == 0 {
            seq![]
        } else {
            seq![cur]
        }
    } else if s[0] == '\n' {
        seq![strip_cr(cur)] + lines_from(s.drop_first(), seq![])
    } else {
        lines_from(s.drop_first(), cur.push(s[0]))
    }
}

/// The lines of `s` (`str::lines`).
pub open spec fn lines(s: Seq<char>) -> Seq<Seq<char>> {
    lines_from(s, seq![])
}

/// The word being read, as a list of zero or one word.
pub open spec fn pending(cur: Seq<char>) -> Seq<Seq<char>> {
    if cur.len() == 0 {
        seq![]
    } else {
        seq![cur]
    }
}

/// The words of `s` given the word `cur` read so far: maximal runs of
/// characters that are not white space.
pub open spec fn words_from(s: Seq<char>, cur: Seq<char>) -> Seq<Seq<char>>
    decreases s.len(),
{
    if s.len() == 0 {
        pending(cur)
    } else if is_space(s[0]) {
        pending(cur) + words_from(s.drop_first(), seq![])
    } else {
        words_from(s.drop_first(), cur.push(s[0]))
    }
}

/// The words of `s` (`str::split_whitespace`).
pub open spec fn words(s: Seq<char>) -> Seq<Seq<char>> {
    words_from(s, seq![])
}

/// The views of a list of character vectors.
pub open spec fn views(v: Seq<Vec<char>>) -> Seq<Seq<char>> {
    v.map_values(|x: Vec<char>| x@)
}

/// Copies `s[from..to]`.
pub fn copy_range(s: &Vec<char>, from: usize, to: usize) -> (r: Vec<char>)
    requires
        from <= to <= s@.len(),
    ensures
        r@ == s@.subrange(from as int, to as int),
{
    let mut r: Vec<char> = Vec::new();
    let mut k: usize = from;
    while k < to
        invariant
            from <= k <= to <= s@.len(),
            r@ == s@.subrange(from as int, k as int),
        decreases to - k,
    {
        r.push(s[k]);
        k = k + 1;
    }
    r
}

/// `str::trim` on characters.
pub fn trim_chars(s: &Vec<char>) -> (r: Vec<char>)
    ensures
        r@ == trim(s@),
{
    let n = s.len();
    let mut i: usize = 0;
    assert(s@.subrange(0, n as int) == s@);
    while i < n && is_space_char(s[i])
        invariant
            i <= n == s@.len(),
            trim_start(s@) == trim_start(s@.subrange(i as int, n as int)),
        decreases n - i,
    {
        assert(s@.subrange(i as int, n as int).drop_first() == s@.subrange(i + 1, n as int));
        i = i + 1;
    }
    let mut j: usize = n;
    while j > i && is_space_char(s[j - 1])
        invariant
            i <= j <= n == s@.len(),
            trim(s@) == trim_end(s@.subrange(i as int, j as int)),
        decreases j - i,
    {
        assert(s@.subrange(i as int, j as int).drop_last() == s@.subrange(i as int, j - 1));
        j = j - 1;
    }
    copy_range(s, i, j)
}

/// `str::lines` on characters.
pub fn split_lines(s: &Vec<char>) -> (r: Vec<Vec<char>>)
    ensures
        views(r@) == lines(s@),
{
    let n = s.len();
    let mut out: Vec<Vec<char>> = Vec::new();
    let mut cur: Vec<char> = Vec::new();
    let mut i: usize = 0;
    assert(s@.skip(0) == s@);
    while i < n
        invariant
            i <= n == s@.len(),
            views(out@) + lines_from(s@.skip(i as int), cur@) == lines(s@),
        decreases n - i,
    {
        let ghost rest = s@.skip(i as int);
        assert(rest.drop_first() == s@.skip(i + 1));
        let c = s[i];
        if c == '\n' {
            let ghost before = out@;
            let ghost old_cur = cur@;
            let mut line = cur;
            if line.len() > 0 && line[line.len() - 1] == '\r' {
                line.pop();
            }
            assert(line@ == strip_cr(old_cur));
            out.push(line);
            cur = Vec::new();
            assert(views(out@) =~= views(before).push(strip_cr(old_cur)));
            assert(views(out@) + lines_from(s@.skip(i + 1), cur@) =~= views(before) + (seq![
                strip_cr(old_cur),
            ] + lines_from(rest.drop_first(), seq![])));
        } else {
            cur.push(c);
        }
        i = i + 1;
    }
    assert(s@.skip(n as int) =~= Seq::<char>::empty());
    if cur.len() > 0 {
        let ghost before = out@;
        let ghost last = cur@;
        out.push(cur);
        assert(views(out@) =~= views(before) + seq![last]);
    } else {
        assert(views(out@) =~= views(out@) + Seq::<Seq<char>>::empty());
    }
    out
}

/// `str::split_whitespace` on characters.
pub fn split_words(s: &Vec<char>) -> (r: Vec<Vec<char>>)
    ensures
        views(r@) == words(s@),
{
    let n = s.len();
    let mut out: Vec<Vec<char>> = Vec::new();
    let mut cur: Vec<char> = Vec::new();
    let mut i: usize = 0;
    assert(s@.skip(0) == s@);
    while i < n
        invariant
            i <= n == s@.len(),
            views(out@) + words_from(s@.skip(i as int), cur@) == words(s@),
        decreases n - i,
    {
        let ghost rest = s@.skip(i as int);
        assert(rest.drop_first() == s@.skip(i + 1));
        let c = s[i];
        if is_space_char(c) {
            let ghost before = out@;
            let ghost old_cur = cur@;
            if cur.len() > 0 {
                out.push(cur);
                assert(views(out@) =~= views(before) + pending(old_cur));
            } else {
                assert(views(out@) =~= views(before) + pending(old_cur));
            }
            cur = Vec::new();
            assert(views(out@) + words_from(s@.skip(i + 1), cur@) =~= views(before) + (pending(
                old_cur,
            ) + words_from(rest.drop_first(), seq![])));
        } else {
            cur.push(c);
        }
        i = i + 1;
    }
    assert(s@.skip(n as int) =~= Seq::<char>::empty());
    let ghost before = out@;
    let ghost last = cur@;
    if cur.len() > 0 {
        out.push(cur);
    }
    assert(views(out@) =~= views(before) + pending(last));
    out
}

/// The characters of `s`, in order.
pub fn chars_of(s: &str) -> (r: Vec<char>)
    ensures
        r@ == s@,
{
    broadcast use vstd::string::group_string_axioms;

    let mut r: Vec<char> = Vec::new();
    for c in it: s.chars()
        invariant
            r@ == it.seq().take(it.index() as int),
    {
        r.push(c);
    }
    r
}

/// A `String` holding exactly the characters `v`, in order: std's
/// `String::from_iter` over `char`s (through `Iterator::collect`), which
/// appends each character in turn.
#[verifier::external_body]
pub fn string_from_chars(v: &Vec<char>) -> (r: String)
    ensures
        r@ == v@,
{
    v.iter().collect()
}

/// Appends the characters `s` to `out`.
pub fn append_chars(out: &mut Vec<char>, s: &Vec<char>)
    ensures
        final(out)@ == old(out)@ + s@,
{
    let n = s.len();
    let mut k: usize = 0;
    while k < n
        invariant
            k <= n == s@.len(),
            out@ == old(out)@ + s@.take(k as int),
        decreases n - k,
    {
        out.push(s[k]);
        assert(s@.take(k + 1) =~= s@.take(k as int).push(s@[k as int]));
        k = k + 1;
    }
    assert(s@.take(n as int) =~= s@);
}

/// Trimming the start leaves a suffix that does not begin with white space.
pub proof fn lemma_trim_start(s: Seq<char>)
    ensures
        trim_start(s).len() <= s.len(),
        trim_start(s) == s.skip(s.len() - trim_start(s).len()),
        trim_start(s).len() == 0 || !is_space(trim_start(s)[0]),
        forall|j: int| 0 <= j < s.len() - trim_start(s).len() ==> is_space(#[trigger] s[j]),
    decreases s.len(),
{
    if s.len() > 0 && is_space(s[0]) {
        lemma_trim_start(s.drop_first());
        assert forall|j: int| 0 <= j < s.len() - trim_start(s).len() implies is_space(
            #[trigger] s[j],
        ) by {
            if j > 0 {
                assert(s[j] == s.drop_first()[j - 1]);
            }
        }
        assert(s.drop_first().skip(s.drop_first().len() - trim_start(s).len()) =~= s.skip(
            s.len() - trim_start(s).len(),
        ));
    } else {
        assert(s.skip(0) =~= s);
    }
}

/// Trimming the end leaves a prefix that does not end in white space.
pub proof fn lemma_trim_end(s: Seq<char>)
    ensures
        trim_end(s).len() <= s.len(),
        trim_end(s) == s.take(trim_end(s).len() as int),
        trim_end(s).len() == 0 || !is_space(trim_end(s).last()),
        forall|j: int| trim_end(s).len() <= j < s.len() ==> is_space(#[trigger] s[j]),
    decreases s.len(),
{
    if s.len() > 0 && is_space(s.last()) {
        lemma_trim_end(s.drop_last());
        assert forall|j: int| trim_end(s).len() <= j < s.len() implies is_space(#[trigger] s[j]) by {
            if j < s.len() - 1 {
                assert(s[j] == s.drop_last()[j]);
            }
        }
        assert(s.drop_last().take(trim_end(s).len() as int) =~= s.take(trim_end(s).len() as int));
    } else {
        assert(s.take(s.len() as int) =~= s);
    }
}

/// `trim(s)` is `s` without white space at either end: the part `s[i..j]`
/// of `s` outside which there is only white space, and which neither begins
/// nor ends with white space; trimming it again changes nothing.
pub proof fn lemma_trim(s: Seq<char>)
    ensures
        exists|i: int, j: int|
            0 <= i <= j <= s.len() && trim(s) == s.subrange(i, j) && (forall|k: int|
                0 <= k < s.len() && !(i <= k < j) ==> is_space(#[trigger] s[k])),
        trim(s).len() == 0 || (!is_space(trim(s)[0]) && !is_space(trim(s).last())),
        trim(trim(s)) == trim(s),
{
    let t = trim_start(s);
    lemma_trim_start(s);
    lemma_trim_end(t);
    let r = trim(s);
    let i = s.len() - t.len();
    let j = i + r.len();
    assert(r =~= s.subrange(i, j));
    assert forall|k: int| 0 <= k < s.len() && !(i <= k < j) implies is_space(#[trigger] s[k]) by {
        if k >= j {
            assert(s[k] == t[k - i]);
        }
    }
    if r.len() > 0 {
        assert(r[0] == t[0]);
        assert(trim_start(r) == r);
        assert(trim_end(r) == r);
    }
}

/// Reading on past a text without white space adds it to the word being read.
proof fn lemma_words_from_solid(s: Seq<char>, cur: Seq<char>)
    requires
        forall|j: int| 0 <= j < s.len() ==> !is_space(#[trigger] s[j]),
    ensures
        words_from(s, cur) == pending(cur + s),
    decreases s.len(),
{
    if s.len() == 0 {
        assert(cur + s =~= cur);
    } else {
        assert(!is_space(s[0]));
        lemma_words_from_solid(s.drop_first(), cur.push(s[0]));
        assert(cur.push(s[0]) + s.drop_first() =~= cur + s);
    }
}

/// A white-space character ends the word being read.
proof fn lemma_words_from_split(a: Seq<char>, t: Seq<char>, cur: Seq<char>)
    requires
        t.len() > 0,
        is_space(t[0]),
    ensures
        words_from(a + t, cur) == words_from(a, cur) + words_from(t.drop_first(), seq![]),
    decreases a.len(),
{
    if a.len() == 0 {
        assert(a + t =~= t);
    } else {
        assert((a + t).drop_first() =~= a.drop_first() + t);
        assert((a + t)[0] == a[0]);
        if is_space(a[0]) {
            lemma_words_from_split(a.drop_first(), t, seq![]);
        } else {
            lemma_words_from_split(a.drop_first(), t, cur.push(a[0]));
        }
    }
}

/// The words of a text (`split_whitespace`): none of white space only, a
/// text without white space is one word, and a white-space character splits
/// the words of what comes before it from those of what comes after it.
pub proof fn lemma_words(a: Seq<char>, c: char, b: Seq<char>)
    ensures
        a.len() > 0 && (forall|j: int| 0 <= j < a.len() ==> !is_space(#[trigger] a[j]))
            ==> words(a) == seq![a],
        (forall|j: int| 0 <= j < a.len() ==> is_space(#[trigger] a[j])) ==> words(a) == Seq::<
            Seq<char>,
        >::empty(),
        is_space(c) ==> words(a + seq![c] + b) == words(a) + words(b),
{
    if a.len() > 0 && (forall|j: int| 0 <= j < a.len() ==> !is_space(#[trigger] a[j])) {
        lemma_words_from_solid(a, seq![]);
        assert(Seq::<char>::empty() + a =~= a);
    }
    if forall|j: int| 0 <= j < a.len() ==> is_space(#[trigger] a[j]) {
        lemma_words_all_space(a);
    }
    if is_space(c) {
        let t = seq![c] + b;
        assert(a + seq![c] + b =~= a + t);
        assert(t.drop_first() =~= b);
        lemma_words_from_split(a, t, seq![]);
    }
}

/// A text of white space only has no words.
proof fn lemma_words_all_space(a: Seq<char>)
    requires
        forall|j: int| 0 <= j < a.len() ==> is_space(#[trigger] a[j]),
    ensures
        words_from(a, seq![]) == Seq::<Seq<char>>::empty(),
    decreases a.len(),
{
    if a.len() > 0 {
        assert(is_space(a[0]));
        assert forall|j: int| 0 <= j < a.drop_first().len() implies is_space(
            #[trigger] a.drop_first()[j],
        ) by {
            assert(a.drop_first()[j] == a[j + 1]);
        }
        lemma_words_all_space(a.drop_first());
        assert(pending(seq![]) =~= Seq::<Seq<char>>::empty());
        assert(words_from(a, seq![]) =~= Seq::<Seq<char>>::empty());
    }
}

/// Reading on past a text without a line break adds it to the line being read.
proof fn lemma_lines_from_unbroken(s: Seq<char>, cur: Seq<char>)
    requires
        !s.contains('\n'),
    ensures
        lines_from(s, cur) == pending(cur + s),
    decreases s.len(),
{
    if s.len() == 0 {
        assert(cur + s =~= cur);
    } else {
        assert(s[0] != '\n');
        assert(!s.drop_first().contains('\n')) by {
            if s.drop_first().contains('\n') {
                let k = choose|k: int| 0 <= k < s.drop_first().len() && s.drop_first()[k] == '\n';
                assert(s[k + 1] == '\n');
            }
        }
        lemma_lines_from_unbroken(s.drop_first(), cur.push(s[0]));
        assert(cur.push(s[0]) + s.drop_first() =~= cur + s);
    }
}

/// A line break ends the line being read.
proof fn lemma_lines_from_split(a: Seq<char>, b: Seq<char>, cur: Seq<char>)
    requires
        !a.contains('\n'),
    ensures
        lines_from(a + seq!['\n'] + b, cur) == seq![strip_cr(cur + a)] + lines_from(b, seq![]),
    decreases a.len(),
{
    let s = a + seq!['\n'] + b;
    if a.len() == 0 {
        assert(s =~= seq!['\n'] + b);
        assert(s.drop_first() =~= b);
        assert(cur + a =~= cur);
    } else {
        assert(s[0] == a[0]);
        assert(a[0] != '\n');
        assert(s.drop_first() =~= a.drop_first() + seq!['\n'] + b);
        assert(!a.drop_first().contains('\n')) by {
            if a.drop_first().contains('\n') {
                let k = choose|k: int| 0 <= k < a.drop_first().len() && a.drop_first()[k] == '\n';
                assert(a[k + 1] == '\n');
            }
        }
        lemma_lines_from_split(a.drop_first(), b, cur.push(a[0]));
        assert(cur.push(a[0]) + a.drop_first() =~= cur + a);
    }
}

/// The lines of a text (`lines`): none of the empty text, a non-empty text
/// without a line break is one line, and the first line break ends the first
/// line, which loses a carriage return just before the break.
pub proof fn lemma_lines(a: Seq<char>, b: Seq<char>)
    ensures
        lines(Seq::<char>::empty()) == Seq::<Seq<char>>::empty(),
        a.len() > 0 && !a.contains('\n') ==> lines(a) == seq![a],
        !a.contains('\n') ==> lines(a + seq!['\n'] + b) == seq![strip_cr(a)] + lines(b),
        strip_cr(a + seq!['\r']) == a,
        (a.len() == 0 || a.last() != '\r') ==> strip_cr(a) == a,
{
    if !a.contains('\n') {
        lemma_lines_from_unbroken(a, seq![]);
        lemma_lines_from_split(a, b, seq![]);
        assert(Seq::<char>::empty() + a =~= a);
    }
    assert((a + seq!['\r']).drop_last() =~= a);
}

} // verus!

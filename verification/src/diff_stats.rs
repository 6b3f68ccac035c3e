//! Statistics of one commit, read from `git diff --numstat HEAD^ HEAD`.

use vstd::prelude::*;
use crate::numbers::{IntErrorKind, parse_unsigned, parse_u32};
use crate::text::{
    trim, lines, words, views, copy_range, chars_of, trim_chars, split_lines, split_words,
    string_from_chars,
};

verus! {

/// Lines added and removed, files touched, and the file extensions seen.
pub struct DiffStats {
    files_changed: u32,
    deletions: u32,
    insertions: u32,
    /// Each extension once, in the order of first appearance.
    extensions: Vec<String>,
}

/// What a `DiffStats` holds.
pub struct DiffStatsView {
    pub files_changed: u32,
    pub deletions: u32,
    pub insertions: u32,
    pub extensions: Seq<Seq<char>>,
}

impl View for DiffStats {
    type V = DiffStatsView;

    closed spec fn view(&self) -> DiffStatsView {
        DiffStatsView {
            files_changed: self.files_changed,
            deletions: self.deletions,
            insertions: self.insertions,
            extensions: string_views(self.extensions@),
        }
    }
}

/// The distinct items of `s`, each at its first appearance.
pub open spec fn distinct(s: Seq<Seq<char>>) -> Seq<Seq<char>>
    decreases s.len(),
{
    if s.len() == 0 {
        seq![]
    } else {
        add_extension(distinct(s.drop_last()), Some(s.last()))
    }
}

/// Adding an extension to a list without repeats keeps it without repeats,
/// and adds just that extension.
pub proof fn lemma_add_extension(exts: Seq<Seq<char>>, e: Option<Seq<char>>)
    requires
        exts.no_duplicates(),
    ensures
        add_extension(exts, e).no_duplicates(),
        forall|x: Seq<char>|
            add_extension(exts, e).contains(x) <==> (exts.contains(x) || e == Some(x)),
{
    let r = add_extension(exts, e);
    if let Some(x) = e {
        if !exts.contains(x) {
            assert forall|a: int, b: int| 0 <= a < r.len() && 0 <= b < r.len() && a != b implies r[a]
                != r[b] by {
                if a == exts.len() as int {
                    assert(exts.contains(r[b]));
                } else if b == exts.len() as int {
                    assert(exts.contains(r[a]));
                }
            }
            assert forall|y: Seq<char>| r.contains(y) <==> (exts.contains(y) || e == Some(y)) by {
                if exts.contains(y) {
                    let j = choose|j: int| 0 <= j < exts.len() && exts[j] == y;
                    assert(r[j] == y);
                }
                if e == Some(y) {
                    assert(r[exts.len() as int] == y);
                }
                if r.contains(y) {
                    let j = choose|j: int| 0 <= j < r.len() && r[j] == y;
                    if j < exts.len() {
                        assert(exts[j] == y);
                    }
                }
            }
        }
    }
}

/// The distinct items have no repeats.
pub proof fn lemma_distinct(s: Seq<Seq<char>>)
    ensures
        distinct(s).no_duplicates(),
        forall|x: Seq<char>| distinct(s).contains(x) <==> s.contains(x),
    decreases s.len(),
{
    if s.len() > 0 {
        lemma_distinct(s.drop_last());
        lemma_add_extension(distinct(s.drop_last()), Some(s.last()));
        assert forall|x: Seq<char>| distinct(s).contains(x) <==> s.contains(x) by {
            if s.drop_last().contains(x) {
                let j = choose|j: int| 0 <= j < s.drop_last().len() && s.drop_last()[j] == x;
                assert(s[j] == x);
            }
            if s.contains(x) && x != s.last() {
                let j = choose|j: int| 0 <= j < s.len() && s[j] == x;
                assert(s.drop_last()[j] == x);
            }
            if x == s.last() {
                assert(s[s.len() - 1] == x);
            }
        }
    }
}

impl DiffStats {
    /// No extension appears twice.
    #[verifier::type_invariant]
    spec fn extensions_distinct(self) -> bool {
        string_views(self.extensions@).no_duplicates()
    }

    /// Statistics with these counts and the distinct `extensions`, each at its
    /// first appearance (a repeated one is kept once, as in a set).
    pub fn new(files_changed: u32, deletions: u32, insertions: u32, extensions: Vec<String>) -> (r:
        DiffStats)
        ensures
            r@.files_changed == files_changed,
            r@.deletions == deletions,
            r@.insertions == insertions,
            r@.extensions == distinct(string_views(extensions@)),
    {
        let ghost given = string_views(extensions@);
        let mut kept: Vec<String> = Vec::new();
        let n = extensions.len();
        let mut i: usize = 0;
        assert(given.take(0) =~= Seq::<Seq<char>>::empty());
        assert(string_views(kept@) =~= Seq::<Seq<char>>::empty());
        while i < n
            invariant
                i <= n == extensions@.len() == given.len(),
                given == string_views(extensions@),
                string_views(kept@) == distinct(given.take(i as int)),
            decreases n - i,
        {
            assert(given.take(i + 1).drop_last() =~= given.take(i as int));
            assert(given.take(i + 1).last() == extensions@[i as int]@);
            let e = extensions[i].clone();
            if !contains_string(&kept, &e) {
                let ghost before = kept@;
                kept.push(e);
                assert(string_views(kept@) =~= string_views(before).push(e@));
            }
            i = i + 1;
        }
        assert(given.take(n as int) =~= given);
        proof {
            lemma_distinct(given);
        }
        DiffStats { files_changed, deletions, insertions, extensions: kept }
    }

    /// The number of files changed.
    pub fn files_changed(&self) -> (r: u32)
        ensures
            r == self@.files_changed,
    {
        self.files_changed
    }

    /// The number of lines removed.
    pub fn deletions(&self) -> (r: u32)
        ensures
            r == self@.deletions,
    {
        self.deletions
    }

    /// The number of lines added.
    pub fn insertions(&self) -> (r: u32)
        ensures
            r == self@.insertions,
    {
        self.insertions
    }

    /// The extensions, each once.
    pub fn extensions(&self) -> (r: &Vec<String>)
        ensures
            string_views(r@) == self@.extensions,
            self@.extensions.no_duplicates(),
    {
        proof {
            use_type_invariant(self);
        }
        &self.extensions
    }
}

/// Sums that wrap around at 2^32, as `u32` addition does in a release build.
pub open spec fn wrap32(n: int) -> int {
    n % 0x1_0000_0000
}

/// The part of `s` after its last `sep` (all of `s` if there is none): the
/// first item of `s.rsplit(sep)`.
pub open spec fn last_segment(s: Seq<char>, sep: char) -> Seq<char>
    decreases s.len(),
{
    if s.len() == 0 {
        s
    } else if s.last() == sep {
        seq![]
    } else {
        last_segment(s.drop_last(), sep).push(s.last())
    }
}

/// The extension of the file at `path`, with its dot: the part of the file's
/// name after its last `.`, when the name has a dot at all.
pub open spec fn file_extension(path: Seq<char>, separator: char) -> Option<Seq<char>> {
    let name = last_segment(path, separator);
    if name.contains('.') {
        Some(seq!['.'] + last_segment(name, '.'))
    } else {
        None
    }
}

/// Adds an extension to a list that holds each once.
pub open spec fn add_extension(exts: Seq<Seq<char>>, e: Option<Seq<char>>) -> Seq<Seq<char>> {
    match e {
        Some(x) => if exts.contains(x) {
            exts
        } else {
            exts.push(x)
        },
        None => exts,
    }
}

/// Where reading `--numstat` lines stands.
pub enum NumstatScan {
    /// All lines so far were read; the sums are exact (not wrapped).
    Counted { insertions: int, deletions: int, files: int, extensions: Seq<Seq<char>> },
    /// A count is not a `u32`.
    Invalid(IntErrorKind),
    /// A line lacks one of its three fields.
    MissingField,
}

/// The largest `u32`.
pub open spec fn max_u32() -> int {
    0xffff_ffff
}

/// Reads one line `<insertions> <deletions> <path>` into the state `acc`. The
/// fields are taken in order and the first fault ends the reading.
pub open spec fn scan_line(acc: NumstatScan, line: Seq<char>, separator: char) -> NumstatScan {
    match acc {
        NumstatScan::Counted { insertions, deletions, files, extensions } => {
            let f = words(trim(line));
            if f.len() < 1 {
                NumstatScan::MissingField
            } else {
                match parse_unsigned(f[0], max_u32()) {
                    Err(k) => NumstatScan::Invalid(k),
                    Ok(a) => if f.len() < 2 {
                        NumstatScan::MissingField
                    } else {
                        match parse_unsigned(f[1], max_u32()) {
                            Err(k) => NumstatScan::Invalid(k),
                            Ok(b) => if f.len() < 3 {
                                NumstatScan::MissingField
                            } else {
                                NumstatScan::Counted {
                                    insertions: insertions + a,
                                    deletions: deletions + b,
                                    files: files + 1,
                                    extensions: add_extension(
                                        extensions,
                                        file_extension(f[2], separator),
                                    ),
                                }
                            },
                        }
                    },
                }
            }
        },
        _ => acc,
    }
}

/// Reads the lines `ls` in order, from nothing counted.
pub open spec fn scan_lines(ls: Seq<Seq<char>>, separator: char) -> NumstatScan
    decreases ls.len(),
{
    if ls.len() == 0 {
        NumstatScan::Counted { insertions: 0, deletions: 0, files: 0, extensions: seq![] }
    } else {
        scan_line(scan_lines(ls.drop_last(), separator), ls.last(), separator)
    }
}

/// What the whole output of `git diff --numstat` reads as: its lines, after
/// trimming the output, one file per line.
pub open spec fn numstat(output: Seq<char>, separator: char) -> NumstatScan {
    scan_lines(lines(trim(output)), separator)
}

/// The views of a list of strings.
pub open spec fn string_views(v: Seq<String>) -> Seq<Seq<char>> {
    v.map_values(|e: String| e@)
}

/// Whether `v` holds a string equal to `x`.
fn contains_string(v: &Vec<String>, x: &String) -> (r: bool)
    ensures
        r == string_views(v@).contains(x@),
{
    let n = v.len();
    for i in 0..n
        invariant
            n == v@.len(),
            forall|j: int| 0 <= j < i ==> v@[j]@ != x@,
    {
        if v[i] == *x {
            assert(string_views(v@)[i as int] == x@);
            return true;
        }
    }
    assert forall|j: int| 0 <= j < string_views(v@).len() implies string_views(v@)[j] != x@ by {
        assert(string_views(v@)[j] == v@[j]@);
    }
    false
}

/// Whether `c` occurs in `s`.
fn contains_char(s: &Vec<char>, c: char) -> (r: bool)
    ensures
        r == s@.contains(c),
{
    let n = s.len();
    for i in 0..n
        invariant
            n == s@.len(),
            forall|j: int| 0 <= j < i ==> s@[j] != c,
    {
        if s[i] == c {
            return true;
        }
    }
    false
}

/// The part of `s` after its last `sep`.
fn last_segment_chars(s: &Vec<char>, sep: char) -> (r: Vec<char>)
    ensures
        r@ == last_segment(s@, sep),
{
    let n = s.len();
    let mut j: usize = n;
    assert(s@.take(n as int) =~= s@);
    assert(s@.subrange(n as int, n as int) =~= Seq::<char>::empty());
    while j > 0 && s[j - 1] != sep
        invariant
            j <= n == s@.len(),
            last_segment(s@, sep) == last_segment(s@.take(j as int), sep) + s@.subrange(
                j as int,
                n as int,
            ),
        decreases j,
    {
        assert(s@.take(j as int).drop_last() =~= s@.take(j - 1));
        assert(s@.take(j as int).last() == s@[j - 1]);
        assert(s@.subrange(j - 1, n as int) =~= seq![s@[j - 1]] + s@.subrange(j as int, n as int));
        assert(last_segment(s@.take(j - 1), sep).push(s@[j - 1]) + s@.subrange(j as int, n as int)
            =~= last_segment(s@.take(j - 1), sep) + s@.subrange(j - 1, n as int));
        j = j - 1;
    }
    if j > 0 {
        assert(s@.take(j as int).last() == s@[j - 1]);
    } else {
        assert(s@.take(0) =~= Seq::<char>::empty());
    }
    assert(last_segment(s@.take(j as int), sep) =~= Seq::<char>::empty());
    assert(last_segment(s@, sep) =~= s@.subrange(j as int, n as int));
    copy_range(s, j, n)
}

/// The extension of the file at `path` ("." and what follows the last dot of
/// the file's name), if its name has a dot; `separator` is the platform's
/// path separator.
pub fn get_file_extension(path: &Vec<char>, separator: char) -> (r: Option<String>)
    ensures
        match r {
            Some(e) => file_extension(path@, separator) == Some(e@),
            None => file_extension(path@, separator) is None,
        },
        r is Some <==> last_segment(path@, separator).contains('.'),
        r matches Some(e) ==> {
            let name = last_segment(path@, separator);
            &&& e@.len() >= 1
            &&& e@[0] == '.'
            &&& !e@.drop_first().contains('.')
            &&& e@.len() <= name.len()
            &&& name.skip(name.len() - e@.len()) == e@
        },
{
    proof {
        lemma_file_extension(path@, separator);
    }
    let name = last_segment_chars(path, separator);
    if contains_char(&name, '.') {
        let tail = last_segment_chars(&name, '.');
        let mut ext: Vec<char> = Vec::new();
        ext.push('.');
        let mut k: usize = 0;
        while k < tail.len()
            invariant
                k <= tail@.len(),
                ext@ == seq!['.'] + tail@.take(k as int),
            decreases tail@.len() - k,
        {
            ext.push(tail[k]);
            assert(tail@.take(k + 1) =~= tail@.take(k as int).push(tail@[k as int]));
            k = k + 1;
        }
        assert(tail@.take(tail@.len() as int) =~= tail@);
        Some(string_from_chars(&ext))
    } else {
        None
    }
}

/// Once reading has stopped at a fault, later lines change nothing.
proof fn lemma_scan_stops(ls: Seq<Seq<char>>, k: int, separator: char)
    requires
        0 <= k <= ls.len(),
        !(scan_lines(ls.take(k), separator) is Counted),
    ensures
        scan_lines(ls, separator) == scan_lines(ls.take(k), separator),
    decreases ls.len() - k,
{
    if k < ls.len() {
        assert(ls.take(k + 1).drop_last() =~= ls.take(k));
        lemma_scan_stops(ls, k + 1, separator);
    } else {
        assert(ls.take(k) =~= ls);
    }
}

/// `x + y`, wrapping around at 2^32.
fn add_wrapping(x: u32, y: u32) -> (r: u32)
    ensures
        r as int == wrap32(x + y),
{
    let s: u64 = x as u64 + y as u64;
    if s > 0xffff_ffff {
        (s - 0x1_0000_0000) as u32
    } else {
        s as u32
    }
}

/// A wrapped sum stays the wrapped exact sum after adding `y`.
proof fn lemma_wrap_add(total: int, y: int)
    requires
        0 <= y < 0x1_0000_0000,
    ensures
        wrap32(wrap32(total) + y) == wrap32(total + y),
{
    vstd::arithmetic::div_mod::lemma_add_mod_noop(total, y, 0x1_0000_0000);
    vstd::arithmetic::div_mod::lemma_small_mod(y as nat, 0x1_0000_0000);
    vstd::arithmetic::div_mod::lemma_add_mod_noop(wrap32(total), y, 0x1_0000_0000);
}

/// How reading the output ended.
enum Scanned {
    Stats(DiffStats),
    Invalid(IntErrorKind),
    MissingField,
}

/// `r` is what `s` describes, the sums wrapped at 2^32.
spec fn scanned_as(r: Scanned, s: NumstatScan) -> bool {
    match (r, s) {
        (
            Scanned::Stats(d),
            NumstatScan::Counted { insertions, deletions, files, extensions },
        ) => {
            &&& d@.insertions as int == wrap32(insertions)
            &&& d@.deletions as int == wrap32(deletions)
            &&& d@.files_changed as int == wrap32(files)
            &&& d@.extensions == extensions
        },
        (Scanned::Invalid(k), NumstatScan::Invalid(k2)) => k == k2,
        (Scanned::MissingField, NumstatScan::MissingField) => true,
        _ => false,
    }
}

/// Reads the output of `git diff --numstat` to its end or its first fault.
fn scan_numstat(output: &str, separator: char) -> (r: Scanned)
    ensures
        scanned_as(r, numstat(output@, separator)),
{
    let chars = chars_of(output);
    let trimmed = trim_chars(&chars);
    let ls = split_lines(&trimmed);
    let ghost lv = views(ls@);
    let mut insertions: u32 = 0;
    let mut deletions: u32 = 0;
    let mut files_changed: u32 = 0;
    let mut extensions: Vec<String> = Vec::new();
    let ghost mut total_ins: int = 0;
    let ghost mut total_del: int = 0;
    let ghost mut total_files: int = 0;
    let n = ls.len();
    let mut i: usize = 0;
    assert(lv.take(0) =~= Seq::<Seq<char>>::empty());
    assert(string_views(extensions@) =~= Seq::<Seq<char>>::empty());
    while i < n
        invariant
            i <= n == ls@.len() == lv.len(),
            lv == views(ls@),
            lv == lines(trim(output@)),
            scan_lines(lv.take(i as int), separator) == (NumstatScan::Counted {
                insertions: total_ins,
                deletions: total_del,
                files: total_files,
                extensions: string_views(extensions@),
            }),
            total_ins >= 0,
            total_del >= 0,
            total_files >= 0,
            insertions as int == wrap32(total_ins),
            deletions as int == wrap32(total_del),
            files_changed as int == wrap32(total_files),
        decreases n - i,
    {
        let ghost pre = lv.take(i as int);
        assert(lv.take(i + 1).drop_last() =~= pre);
        assert(lv.take(i + 1).last() == ls@[i as int]@);
        let line = trim_chars(&ls[i]);
        let f = split_words(&line);
        let ghost fv = views(f@);
        if f.len() < 1 {
            proof {
                lemma_scan_stops(lv, i + 1, separator);
            }
            return Scanned::MissingField;
        }
        assert(fv[0] == f@[0]@);
        let a = match parse_u32(&f[0]) {
            Err(k) => {
                proof {
                    lemma_scan_stops(lv, i + 1, separator);
                }
                return Scanned::Invalid(k);
            },
            Ok(a) => a,
        };
        if f.len() < 2 {
            proof {
                lemma_scan_stops(lv, i + 1, separator);
            }
            return Scanned::MissingField;
        }
        assert(fv[1] == f@[1]@);
        let b = match parse_u32(&f[1]) {
            Err(k) => {
                proof {
                    lemma_scan_stops(lv, i + 1, separator);
                }
                return Scanned::Invalid(k);
            },
            Ok(b) => b,
        };
        if f.len() < 3 {
            proof {
                lemma_scan_stops(lv, i + 1, separator);
            }
            return Scanned::MissingField;
        }
        assert(fv[2] == f@[2]@);
        proof {
            lemma_wrap_add(total_ins, a as int);
            lemma_wrap_add(total_del, b as int);
            lemma_wrap_add(total_files, 1);
        }
        insertions = add_wrapping(insertions, a);
        deletions = add_wrapping(deletions, b);
        let ext = get_file_extension(&f[2], separator);
        match ext {
            Some(e) => {
                if !contains_string(&extensions, &e) {
                    let ghost before = extensions@;
                    extensions.push(e);
                    assert(string_views(extensions@) =~= string_views(before).push(e@));
                }
            },
            None => {},
        }
        files_changed = add_wrapping(files_changed, 1);
        proof {
            total_ins = total_ins + a;
            total_del = total_del + b;
            total_files = total_files + 1;
        }
        i = i + 1;
    }
    assert(lv.take(n as int) =~= lv);
    proof {
        lemma_scan_counted(lv, separator);
    }
    Scanned::Stats(DiffStats { files_changed, deletions, insertions, extensions })
}

impl DiffStats {
    /// Reads the output of `git diff --numstat HEAD^ HEAD`: one line per file,
    /// `<insertions> <deletions> <path>`. Sums the counts (wrapping at 2^32),
    /// counts the lines, and collects each file extension once; `separator`
    /// is the platform's path separator. A count that is not a `u32` ends the
    /// reading with its error. Every line must have its three fields up to the
    /// first bad count (`numstat_has_all_fields` tells).
    pub fn from_numstat(output: &str, separator: char) -> (r: Result<DiffStats, IntErrorKind>)
        requires
            !(numstat(output@, separator) is MissingField),
        ensures
            match numstat(output@, separator) {
                NumstatScan::Counted { insertions, deletions, files, extensions } => {
                    &&& r is Ok
                    &&& r->Ok_0@.insertions as int == wrap32(insertions)
                    &&& r->Ok_0@.deletions as int == wrap32(deletions)
                    &&& r->Ok_0@.files_changed as int == wrap32(files)
                    &&& r->Ok_0@.extensions == extensions
                },
                NumstatScan::Invalid(k) => r == Err::<DiffStats, IntErrorKind>(k),
                NumstatScan::MissingField => false,
            },
            (forall|i: int|
                0 <= i < lines(trim(output@)).len() ==> line_ok(#[trigger] lines(trim(output@))[i]))
                ==> r is Ok,
    {
        proof {
            if forall|i: int|
                0 <= i < lines(trim(output@)).len() ==> line_ok(
                    #[trigger] lines(trim(output@))[i],
                ) {
                lemma_numstat_complete(output@, separator);
            }
        }
        match scan_numstat(output, separator) {
            Scanned::Stats(d) => Ok(d),
            Scanned::Invalid(k) => Err(k),
            Scanned::MissingField => {
                // excluded by the precondition
                proof {
                    assert(false);
                }
                Err(IntErrorKind::Empty)
            },
        }
    }

    /// Whether every line of the output has the fields that reading it needs.
    pub fn numstat_has_all_fields(output: &str, separator: char) -> (r: bool)
        ensures
            r == !(numstat(output@, separator) is MissingField),
            (forall|i: int|
                0 <= i < lines(trim(output@)).len() ==> line_ok(#[trigger] lines(trim(output@))[i]))
                ==> r,
    {
        proof {
            if forall|i: int|
                0 <= i < lines(trim(output@)).len() ==> line_ok(
                    #[trigger] lines(trim(output@))[i],
                ) {
                lemma_numstat_complete(output@, separator);
            }
        }
        match scan_numstat(output, separator) {
            Scanned::MissingField => false,
            _ => true,
        }
    }
}

/// The fields of a `--numstat` line.
pub open spec fn line_fields(line: Seq<char>) -> Seq<Seq<char>> {
    words(trim(line))
}

/// A line with a path and two counts that are `u32`s.
pub open spec fn line_ok(line: Seq<char>) -> bool {
    let f = line_fields(line);
    &&& f.len() >= 3
    &&& parse_unsigned(f[0], max_u32()) is Ok
    &&& parse_unsigned(f[1], max_u32()) is Ok
}

/// The extension of the file named on a line.
pub open spec fn line_extension(line: Seq<char>, separator: char) -> Option<Seq<char>> {
    file_extension(line_fields(line)[2], separator)
}

/// The sum of the counts in field `k` of the lines.
pub open spec fn column_total(ls: Seq<Seq<char>>, k: int) -> int
    decreases ls.len(),
{
    if ls.len() == 0 {
        0
    } else {
        column_total(ls.drop_last(), k) + parse_unsigned(line_fields(ls.last())[k], max_u32())->Ok_0
    }
}

/// A complete reading of lines: every line has a path and two valid
/// counts, the insertions and deletions are the sums of the first and second
/// counts, the number of files is the number of lines, and the extensions are
/// those of the files named, each once.
pub proof fn lemma_scan_counted(ls: Seq<Seq<char>>, separator: char)
    ensures
        scan_lines(ls, separator) matches NumstatScan::Counted {
            insertions,
            deletions,
            files,
            extensions,
        } ==> {
            &&& forall|i: int| 0 <= i < ls.len() ==> line_ok(#[trigger] ls[i])
            &&& insertions == column_total(ls, 0)
            &&& deletions == column_total(ls, 1)
            &&& files == ls.len()
            &&& extensions.no_duplicates()
            &&& forall|e: Seq<char>|
                extensions.contains(e) <==> exists|i: int|
                    0 <= i < ls.len() && #[trigger] line_extension(ls[i], separator) == Some(e)
        },
    decreases ls.len(),
{
    if ls.len() > 0 {
        let prev = ls.drop_last();
        lemma_scan_counted(prev, separator);
        if let NumstatScan::Counted { insertions, deletions, files, extensions } = scan_lines(
            ls,
            separator,
        ) {
            let last = ls.last();
            let before = scan_lines(prev, separator);
            assert(before is Counted);
            let old_exts = before->extensions;
            let new_ext = line_extension(last, separator);
            assert(line_ok(last));
            assert forall|i: int| 0 <= i < ls.len() implies line_ok(#[trigger] ls[i]) by {
                if i < ls.len() - 1 {
                    assert(ls[i] == prev[i]);
                }
            }
            assert(extensions == add_extension(old_exts, new_ext));
            lemma_add_extension(old_exts, new_ext);
            assert forall|e: Seq<char>|
                extensions.contains(e) <==> exists|i: int|
                    0 <= i < ls.len() && #[trigger] line_extension(ls[i], separator) == Some(
                        e,
                    ) by {
                if old_exts.contains(e) {
                    let i = choose|i: int|
                        0 <= i < prev.len() && #[trigger] line_extension(prev[i], separator) == Some(
                            e,
                        );
                    assert(ls[i] == prev[i]);
                }
                if new_ext == Some(e) {
                    assert(ls[ls.len() - 1] == last);
                }
                if exists|i: int|
                    0 <= i < ls.len() && #[trigger] line_extension(ls[i], separator) == Some(e) {
                    let i = choose|i: int|
                        0 <= i < ls.len() && #[trigger] line_extension(ls[i], separator) == Some(e);
                    if i < ls.len() - 1 {
                        assert(ls[i] == prev[i]);
                    }
                }
            }
        }
    }
}

/// What reading the whole output of `git diff --numstat` finds, when it
/// succeeds: see `lemma_scan_counted`, over the lines of the trimmed output.
pub proof fn lemma_numstat_counted(output: Seq<char>, separator: char)
    ensures
        numstat(output, separator) matches NumstatScan::Counted {
            insertions,
            deletions,
            files,
            extensions,
        } ==> {
            let ls = lines(trim(output));
            &&& forall|i: int| 0 <= i < ls.len() ==> line_ok(#[trigger] ls[i])
            &&& insertions == column_total(ls, 0)
            &&& deletions == column_total(ls, 1)
            &&& files == ls.len()
            &&& extensions.no_duplicates()
            &&& forall|e: Seq<char>|
                extensions.contains(e) <==> exists|i: int|
                    0 <= i < ls.len() && #[trigger] line_extension(ls[i], separator) == Some(e)
        },
{
    lemma_scan_counted(lines(trim(output)), separator);
}

/// Reading never stops at a line that has a path and two valid counts,
/// whatever else the line holds after them (a renamed file's line has more
/// words): when every line is so, the whole output is read.
pub proof fn lemma_scan_complete(ls: Seq<Seq<char>>, separator: char)
    requires
        forall|i: int| 0 <= i < ls.len() ==> line_ok(#[trigger] ls[i]),
    ensures
        scan_lines(ls, separator) is Counted,
    decreases ls.len(),
{
    if ls.len() > 0 {
        assert forall|i: int| 0 <= i < ls.drop_last().len() implies line_ok(
            #[trigger] ls.drop_last()[i],
        ) by {
            assert(ls.drop_last()[i] == ls[i]);
        }
        lemma_scan_complete(ls.drop_last(), separator);
        assert(line_ok(ls[ls.len() - 1]));
    }
}

/// The output of `git diff --numstat` is read in full whenever each of its
/// lines (after trimming the output) has a path and two valid counts.
pub proof fn lemma_numstat_complete(output: Seq<char>, separator: char)
    requires
        forall|i: int|
            0 <= i < lines(trim(output)).len() ==> line_ok(#[trigger] lines(trim(output))[i]),
    ensures
        numstat(output, separator) is Counted,
{
    lemma_scan_complete(lines(trim(output)), separator);
}

/// `last_segment(s, c)` is the last `c`-separated part of `s`: a suffix of
/// `s` without `c`, preceded in `s` by `c` unless it is all of `s`.
pub proof fn lemma_last_segment(s: Seq<char>, c: char)
    ensures
        !last_segment(s, c).contains(c),
        last_segment(s, c).len() <= s.len(),
        s.skip(s.len() - last_segment(s, c).len()) == last_segment(s, c),
        last_segment(s, c).len() < s.len() ==> s[s.len() - last_segment(s, c).len() - 1] == c,
        last_segment(s, c).len() == s.len() ==> !s.contains(c),
    decreases s.len(),
{
    let r = last_segment(s, c);
    if s.len() == 0 {
        assert(s.skip(0) =~= r);
    } else if s.last() == c {
        assert(s.skip(s.len() as int) =~= r);
    } else {
        let p = s.drop_last();
        lemma_last_segment(p, c);
        let q = last_segment(p, c);
        assert(r == q.push(s.last()));
        assert(s.skip(s.len() - r.len()) =~= p.skip(p.len() - q.len()).push(s.last()));
        assert forall|j: int| 0 <= j < r.len() implies r[j] != c by {
            if j < q.len() {
                assert(r[j] == q[j]);
            }
        }
        if q.len() < p.len() {
            assert(s[s.len() - r.len() - 1] == p[p.len() - q.len() - 1]);
        } else {
            assert forall|j: int| 0 <= j < s.len() implies s[j] != c by {
                if j < p.len() {
                    assert(s[j] == p[j]);
                }
            }
        }
    }
}

/// The extension of a path: with `name` the path's last component (after its
/// last separator), there is one exactly when `name` holds a dot, and it is a
/// dot followed by the end of `name` after its last dot: it begins with the
/// only dot it holds, and `name` ends with it.
pub proof fn lemma_file_extension(path: Seq<char>, separator: char)
    ensures
        ({
            let name = last_segment(path, separator);
            &&& !name.contains(separator)
            &&& name.len() <= path.len()
            &&& path.skip(path.len() - name.len()) == name
            &&& name.len() < path.len() ==> path[path.len() - name.len() - 1] == separator
            &&& file_extension(path, separator) is Some <==> name.contains('.')
            &&& file_extension(path, separator) matches Some(e) ==> {
                &&& e.len() >= 1
                &&& e[0] == '.'
                &&& !e.drop_first().contains('.')
                &&& e.len() <= name.len()
                &&& name.skip(name.len() - e.len()) == e
            }
        }),
{
    let name = last_segment(path, separator);
    lemma_last_segment(path, separator);
    lemma_last_segment(name, '.');
    if name.contains('.') {
        let tail = last_segment(name, '.');
        let e = seq!['.'] + tail;
        assert(e.drop_first() =~= tail);
        assert(tail.len() < name.len());
        assert(name.skip(name.len() - e.len()) =~= e) by {
            assert forall|j: int| 0 <= j < e.len() implies name.skip(name.len() - e.len())[j]
                == e[j] by {
                if j > 0 {
                    assert(name.skip(name.len() - tail.len())[j - 1] == tail[j - 1]);
                }
            }
        }
    }
}

/// Counts are exact while they fit in a `u32`, and wrap around (rather than
/// stop) beyond: adding 2^32 changes nothing.
pub proof fn lemma_wrap32(n: int)
    requires
        n >= 0,
    ensures
        0 <= wrap32(n) < 0x1_0000_0000,
        n < 0x1_0000_0000 ==> wrap32(n) == n,
        wrap32(n + 0x1_0000_0000) == wrap32(n),
{
    vstd::arithmetic::div_mod::lemma_mod_add_multiples_vanish(n, 0x1_0000_0000);
}

} // verus!

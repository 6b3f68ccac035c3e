//! The decisions of the installer that are not file or process work: its log
//! lines, the answers that end the list of repositories to install into, and
//! the folders it refuses to remove.

use vstd::prelude::*;
use crate::diff_stats::string_views;
use crate::input::input_value;
use crate::text::{trim, chars_of, trim_chars, string_from_chars, lemma_trim};

verus! {

/// A line of the installer's log.
pub open spec fn installer_log_line(output: Seq<char>) -> Seq<char> {
    "[Commit-Collective-Installer]: "@ + output
}

/// The installer's log line for `output`.
pub fn log_format(output: &str) -> (r: String)
    ensures
        r@ == installer_log_line(output@),
{
    let mut r = String::from_str("[Commit-Collective-Installer]: ");
    r.append(output);
    r
}

/// The repository named in an answer to "What is an path to a git repo?",
/// or `None` when the answer is empty or `q`, which ends the questions.
pub open spec fn repo_answer(line: Seq<char>) -> Option<Seq<char>> {
    let v = trim(trim(line));
    if v.len() == 0 || v == "q"@ {
        None
    } else {
        Some(v)
    }
}

/// The repository named is the whole typed line without the white space at its
/// ends, spaces inside included; an empty line or `q` names none.
pub proof fn lemma_repo_answer(line: Seq<char>)
    ensures
        repo_answer(line) is None <==> (trim(line).len() == 0 || trim(line) == "q"@),
        repo_answer(line) matches Some(v) ==> v == trim(line),
{
    lemma_trim(line);
}

/// The repository to install the hook into, from the line the user typed;
/// `None` ends the list.
pub fn repo_dir_answer(line: &str) -> (r: Option<String>)
    ensures
        match r {
            Some(v) => repo_answer(line@) == Some(v@),
            None => repo_answer(line@) is None,
        },
        r is None <==> (trim(line@).len() == 0 || trim(line@) == "q"@),
        r matches Some(v) ==> v@ == trim(line@),
{
    proof {
        lemma_repo_answer(line@);
    }
    let answer = input_value(line);
    let chars = chars_of(answer.as_str());
    let repo = string_from_chars(&trim_chars(&chars));
    let quit = String::from_str("q");
    if repo.as_str().is_empty() || repo == quit {
        None
    } else {
        Some(repo)
    }
}

/// Why the installer refuses to remove its folder.
#[derive(Debug, Clone, Copy, PartialEq, Eq, Structural)]
pub enum UninstallRefusal {
    /// The folder is the home directory itself.
    HomeDirectory,
    /// The folder's path does not end in the installer's folder name.
    NotAppDirectory,
}

/// The message shown for a refusal.
pub open spec fn refusal_message(r: UninstallRefusal) -> Seq<char> {
    match r {
        UninstallRefusal::HomeDirectory => "Can't uninstall home directory"@,
        UninstallRefusal::NotAppDirectory => "Can't uninstall not app directory"@,
    }
}

impl UninstallRefusal {
    /// The message shown for this refusal.
    pub fn message(&self) -> (r: String)
        ensures
            r@ == refusal_message(*self),
    {
        match self {
            UninstallRefusal::HomeDirectory => String::from_str("Can't uninstall home directory"),
            UninstallRefusal::NotAppDirectory => String::from_str(
                "Can't uninstall not app directory",
            ),
        }
    }
}

/// Whether the path with components `path` ends with the components
/// `suffix`, whole components only (`Path::ends_with`).
pub open spec fn ends_with_components(path: Seq<Seq<char>>, suffix: Seq<Seq<char>>) -> bool {
    suffix.len() <= path.len() && path.skip(path.len() - suffix.len()) == suffix
}

/// Whether `a[from_a..]` and `b` hold equal strings, in order, over `b`'s length.
fn strings_equal_from(a: &Vec<String>, from_a: usize, b: &Vec<String>) -> (r: bool)
    requires
        from_a + b@.len() == a@.len(),
    ensures
        r == (string_views(a@).skip(from_a as int) == string_views(b@)),
{
    let n = b.len();
    let total = a.len();
    let ghost av = string_views(a@).skip(from_a as int);
    let ghost bv = string_views(b@);
    for i in 0..n
        invariant
            n == b@.len(),
            from_a + n == a@.len() == total,
            av == string_views(a@).skip(from_a as int),
            bv == string_views(b@),
            forall|j: int| 0 <= j < i ==> av[j] == bv[j],
    {
        if a[from_a + i] != b[i] {
            assert(av[i as int] != bv[i as int]);
            return false;
        }
    }
    assert(av =~= bv);
    true
}

/// Whether the installer refuses to remove the folder with path components
/// `app_dir`: it is the home directory (components `home_dir`), or it does
/// not end in the components of the installer's folder name `app_dir_name`.
pub fn uninstall_refusal(
    app_dir: &Vec<String>,
    home_dir: &Vec<String>,
    app_dir_name: &Vec<String>,
) -> (r: Option<UninstallRefusal>)
    ensures
        r == (if string_views(app_dir@) == string_views(home_dir@) {
            Some(UninstallRefusal::HomeDirectory)
        } else if !ends_with_components(string_views(app_dir@), string_views(app_dir_name@)) {
            Some(UninstallRefusal::NotAppDirectory)
        } else {
            None
        }),
{
    let same_as_home = app_dir.len() == home_dir.len() && strings_equal_from(app_dir, 0, home_dir);
    proof {
        assert(string_views(app_dir@).skip(0) =~= string_views(app_dir@));
    }
    if same_as_home {
        return Some(UninstallRefusal::HomeDirectory);
    }
    if app_dir_name.len() > app_dir.len() {
        return Some(UninstallRefusal::NotAppDirectory);
    }
    let from = app_dir.len() - app_dir_name.len();
    if strings_equal_from(app_dir, from, app_dir_name) {
        None
    } else {
        Some(UninstallRefusal::NotAppDirectory)
    }
}

} // verus!

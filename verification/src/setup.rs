//! The first-time setup's record of the user: team, e-mail address, and
//! whether the hook applies to every repository.

use vstd::prelude::*;
use crate::input::{input_value, check_y_n, lowercase};
use crate::text::trim;

verus! {

/// The answers that the first-time setup collects.
pub struct SetupConfig {
    pub team_name: String,
    pub source_allies_email: String,
    pub should_apply_globally: bool,
}

/// `true` or `false`, as `bool`'s `Display` writes it.
pub open spec fn bool_text(b: bool) -> Seq<char> {
    if b {
        "true"@
    } else {
        "false"@
    }
}

/// The text of the setup's file for `c`.
pub open spec fn setup_file(c: SetupConfig) -> Seq<char> {
    "team_name="@ + c.team_name@ + "\nsource_allies_email="@ + c.source_allies_email@
        + "\nshould_apply_globally="@ + bool_text(c.should_apply_globally) + "\n"@
}

impl SetupConfig {
    /// The record made from the lines the user typed in answer to the three
    /// questions: team name, e-mail address, and whether to apply the hook
    /// globally (yes when the answer's lowercase form is `y`).
    pub fn create_from_input(team_line: &str, email_line: &str, apply_line: &str) -> (r:
        SetupConfig)
        ensures
            r.team_name@ == trim(team_line@),
            r.source_allies_email@ == trim(email_line@),
            r.should_apply_globally == (lowercase(trim(apply_line@)) == "y"@),
    {
        let team_name = input_value(team_line);
        let source_allies_email = input_value(email_line);
        let apply = input_value(apply_line);
        let should_apply_globally = check_y_n(apply.as_str());
        SetupConfig { team_name, source_allies_email, should_apply_globally }
    }

    /// The text that the setup writes to its file.
    pub fn file_contents(&self) -> (r: String)
        ensures
            r@ == setup_file(*self),
    {
        let mut r = String::from_str("team_name=");
        r.append(self.team_name.as_str());
        r.append("\nsource_allies_email=");
        r.append(self.source_allies_email.as_str());
        r.append("\nshould_apply_globally=");
        if self.should_apply_globally {
            r.append("true");
        } else {
            r.append("false");
        }
        r.append("\n");
        r
    }
}

} // verus!

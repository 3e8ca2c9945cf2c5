use vstd::prelude::*;

use crate::text::str_equals;

verus! {

/// The fields of a monthly goal that an update may replace; `None` leaves a
/// field as it is.
#[derive(Debug, Clone)]
pub struct MonthlyGoalUpdate<'a> {
    pub header: Option<&'a str>,
    pub body: Option<&'a str>,
    pub progress: Option<i16>,
}

/// The name under which a branch's goals are shown.
pub open spec fn branch_display_name(branch: Seq<char>) -> Seq<char> {
    if branch == "navy"@ {
        "Navy"@
    } else if branch == "legion"@ {
        "Legion"@
    } else if branch == "industry"@ {
        "Industry"@
    } else if branch == "main"@ {
        "Main"@
    } else {
        "Other"@
    }
}

/// The name under which the goals of `branch` are shown.
pub fn fetch_branch_display_name(branch: &str) -> (r: &'static str)
    ensures
        r@ == branch_display_name(branch@),
{
    if str_equals(branch, "navy") {
        "Navy"
    } else if str_equals(branch, "legion") {
        "Legion"
    } else if str_equals(branch, "industry") {
        "Industry"
    } else if str_equals(branch, "main") {
        "Main"
    } else {
        "Other"
    }
}

} // verus!

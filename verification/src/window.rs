//! Window resolution for overview queries: the accepted range labels and the
//! half-open windows they denote, all ending at `now`.
use vstd::prelude::*;

use crate::domain::AppError;
use crate::timesource::local_day_start_ts;

verus! {

/// Seconds in one day and in one week.
pub const DAY_SECONDS: i64 = 86400;

pub const WEEK_SECONDS: i64 = 604800;

/// The label an overview request resolves to: the given one, or `all` when
/// absent.
pub open spec fn effective_label(range: Option<Seq<char>>) -> Seq<char> {
    match range {
        Option::Some(l) => l,
        Option::None => "all"@,
    }
}

/// The four accepted range labels.
pub open spec fn known_label(l: Seq<char>) -> bool {
    l == "all"@ || l == "day"@ || l == "week"@ || l == "today"@
}

/// The four labels differ pairwise (they differ in their first character).
pub proof fn lemma_labels_distinct()
    ensures
        "all"@ != "day"@,
        "all"@ != "week"@,
        "all"@ != "today"@,
        "day"@ != "week"@,
        "day"@ != "today"@,
        "week"@ != "today"@,
{
    reveal_strlit("all");
    reveal_strlit("day");
    reveal_strlit("week");
    reveal_strlit("today");
    assert("all"@[0] == 'a' && "day"@[0] == 'd' && "week"@[0] == 'w' && "today"@[0] == 't');
}

/// String equality by characters.
pub fn str_eq(a: &str, b: &str) -> (r: bool)
    ensures
        r == (a@ == b@),
{
    let sa = a.to_owned();
    let sb = b.to_owned();
    sa == sb
}

/// The view of an optional label.
pub open spec fn label_view(range: Option<String>) -> Option<Seq<char>> {
    match range {
        Option::Some(s) => Option::Some(s@),
        Option::None => Option::None,
    }
}

/// Resolves a range label to a window start. `all` means an unbounded past;
/// `day` and `week` reach back fixed spans from `now`; `today` starts at the
/// machine-local midnight (whose value depends on the time zone). Unknown
/// labels are rejected; an absent label behaves as `all`.
pub fn resolve_window(range: Option<String>, now: i64) -> (r: Result<(Option<i64>, String), AppError>)
    requires
        now >= 0,
    ensures
        ({
            let l = effective_label(label_view(range));
            match r {
                Ok(p) => known_label(l) && p.1@ == l && (l == "all"@ ==> p.0 is None) && (l
                    == "day"@ ==> p.0 == Option::Some((now - DAY_SECONDS) as i64)) && (l == "week"@
                    ==> p.0 == Option::Some((now - WEEK_SECONDS) as i64)) && (l == "today"@
                    ==> p.0 is Some),
                Err(e) => e == AppError::InvalidInput && !known_label(l),
            }
        }),
{
    proof {
        lemma_labels_distinct();
    }
    let label: &str = match &range {
        Option::Some(s) => s.as_str(),
        Option::None => "all",
    };
    if str_eq(label, "all") {
        Ok((Option::None, label.to_owned()))
    } else if str_eq(label, "day") {
        Ok((Option::Some(now - DAY_SECONDS), label.to_owned()))
    } else if str_eq(label, "week") {
        Ok((Option::Some(now - WEEK_SECONDS), label.to_owned()))
    } else if str_eq(label, "today") {
        Ok((Option::Some(local_day_start_ts(now)), label.to_owned()))
    } else {
        Err(AppError::InvalidInput)
    }
}

} // verus!

//! Text helpers: trimming of titles and tags, and the ASCII-case-insensitive
//! comparison used for tag lookup.
use vstd::prelude::*;

use crate::domain::AppError;

verus! {

/// What `str::trim` returns for a given character sequence.
pub uninterp spec fn trim_of(s: Seq<char>) -> Seq<char>;

/// Relies on str::trim: removes leading and trailing whitespace; the result
/// depends on the characters alone.
#[verifier::external_body]
pub(crate) fn trim_str<'a>(s: &'a str) -> (r: &'a str)
    ensures
        r@ == trim_of(s@),
{
    s.trim()
}

/// Two characters match up to ASCII case: equal, or an ASCII letter and its
/// other-case form (codes 65..=90 and 97..=122 differ by 32).
pub open spec fn eq_ci_char(a: char, b: char) -> bool {
    ||| a == b
    ||| (65 <= a as int && a as int <= 90 && b as int == a as int + 32)
    ||| (65 <= b as int && b as int <= 90 && a as int == b as int + 32)
}

/// Two character sequences match up to ASCII case.
pub open spec fn eq_ci(a: Seq<char>, b: Seq<char>) -> bool {
    a.len() == b.len() && forall|i: int| 0 <= i < a.len() ==> eq_ci_char(a[i], b[i])
}

/// Matching up to ASCII case is symmetric and carries over a common match.
pub proof fn lemma_eq_ci_common(a: Seq<char>, b: Seq<char>, c: Seq<char>)
    requires
        eq_ci(a, c),
        eq_ci(b, c),
    ensures
        eq_ci(a, b),
{
    assert forall|i: int| 0 <= i < a.len() implies eq_ci_char(a[i], b[i]) by {
        assert(eq_ci_char(a[i], c[i]));
        assert(eq_ci_char(b[i], c[i]));
    }
}

/// ASCII-case-insensitive string comparison, the lookup rule for tag names.
pub fn chars_eq_ci(a: &str, b: &str) -> (r: bool)
    ensures
        r == eq_ci(a@, b@),
{
    let alen = a.unicode_len();
    let blen = b.unicode_len();
    if alen != blen {
        return false;
    }
    let mut i: usize = 0;
    while i < alen
        invariant
            alen == a@.len(),
            blen == b@.len(),
            alen == blen,
            0 <= i <= alen,
            forall|j: int| 0 <= j < i ==> eq_ci_char(a@[j], b@[j]),
        decreases alen - i,
    {
        let ca = a.get_char(i) as u32;
        let cb = b.get_char(i) as u32;
        let same = ca == cb || (65 <= ca && ca <= 90 && cb == ca + 32) || (65 <= cb && cb <= 90
            && ca == cb + 32);
        if !same {
            assert(!eq_ci_char(a@[i as int], b@[i as int]));
            return false;
        }
        assert(eq_ci_char(a@[i as int], b@[i as int]));
        i = i + 1;
    }
    true
}

/// Trims a task title; rejects titles that are empty after trimming.
pub fn sanitize_title(raw: &str) -> (r: Result<String, AppError>)
    ensures
        match r {
            Ok(t) => t@ == trim_of(raw@) && t@.len() > 0,
            Err(e) => e == AppError::InvalidInput && trim_of(raw@).len() == 0,
        },
{
    let t = trim_str(raw);
    if t.unicode_len() == 0 {
        Err(AppError::InvalidInput)
    } else {
        Ok(t.to_owned())
    }
}

/// Trims a tag name; rejects tags that are empty after trimming.
pub fn sanitize_tag(raw: &str) -> (r: Result<String, AppError>)
    ensures
        match r {
            Ok(t) => t@ == trim_of(raw@) && t@.len() > 0,
            Err(e) => e == AppError::InvalidInput && trim_of(raw@).len() == 0,
        },
{
    let t = trim_str(raw);
    if t.unicode_len() == 0 {
        Err(AppError::InvalidInput)
    } else {
        Ok(t.to_owned())
    }
}

} // verus!

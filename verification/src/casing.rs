//! Case folding for identifiers. Table and column names compare
//! case-insensitively throughout the engine, and created tables store their
//! name upper-cased.

use vstd::prelude::*;

verus! {

/// The lower-case folding of a character sequence, as `str::to_lowercase`
/// computes it.
pub uninterp spec fn lower_of(s: Seq<char>) -> Seq<char>;

/// The upper-case folding of a character sequence, as `str::to_uppercase`
/// computes it.
pub uninterp spec fn upper_of(s: Seq<char>) -> Seq<char>;

/// Relies on str::to_lowercase: the result depends on the characters of the
/// input alone.
#[verifier::external_body]
pub(crate) fn to_lower(s: &str) -> (r: String)
    ensures
        r@ == lower_of(s@),
{
    s.to_lowercase()
}

/// Relies on str::to_uppercase: the result depends on the characters of the
/// input alone; and on ASCII input, lower-casing the result equals
/// lower-casing the input, since the ASCII case mappings are inverse to
/// each other letter by letter. The restriction to ASCII matters: full
/// Unicode case folding has one-way mappings, so the unrestricted equation
/// would be false.
#[verifier::external_body]
pub(crate) fn to_upper(s: &str) -> (r: String)
    ensures
        r@ == upper_of(s@) && (vstd::utf8::is_ascii_chars(s@) ==> lower_of(r@) == lower_of(
            s@,
        )),
{
    s.to_uppercase()
}

/// Do `a` and `b` agree up to case?
pub open spec fn eq_fold(a: Seq<char>, b: Seq<char>) -> bool {
    lower_of(a) == lower_of(b)
}

/// Compare two identifiers case-insensitively.
pub(crate) fn eq_ignore_case(a: &str, b: &str) -> (r: bool)
    ensures
        r == eq_fold(a@, b@),
{
    let la = to_lower(a);
    let lb = to_lower(b);
    la == lb
}

} // verus!

//! Replacing what a regular expression matches.

use vstd::prelude::*;

verus! {

/// What `regex::Regex::replace_all` makes of `haystack` with the expression
/// that `regex::Regex::new` compiles from `pattern`; `None` for a pattern
/// that does not compile.
pub uninterp spec fn regex_replace_all(
    pattern: Seq<char>,
    haystack: Seq<char>,
    replacement: Seq<char>,
) -> Option<Seq<char>>;

/// Calls `regex::Regex::new` on the pattern and `Regex::replace_all` on the
/// expression that comes of it: every match in `haystack`, from left to
/// right and without overlap, gives way to `replacement`. `None` where the
/// pattern does not compile. The result depends on the three texts alone.
#[verifier::external_body]
pub(crate) fn replace_all(pattern: &str, haystack: &str, replacement: &str) -> (replaced: Option<
    String,
>)
    ensures
        match replaced {
            Some(text) => regex_replace_all(pattern@, haystack@, replacement@) == Some(text@),
            None => regex_replace_all(pattern@, haystack@, replacement@) is None,
        },
{
    match regex::Regex::new(pattern) {
        Ok(re) => Some(re.replace_all(haystack, replacement).into_owned()),
        Err(_) => None,
    }
}

} // verus!

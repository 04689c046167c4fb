//! The glob-matching primitive, consumed as a black-box predicate over
//! path strings.
use vstd::prelude::*;

verus! {

/// Whether the glob pattern `pat` compiles.
pub uninterp spec fn glob_valid(pat: Seq<char>) -> bool;

/// Whether the glob pattern `pat` matches the string `path` under the
/// matcher's default options.
pub uninterp spec fn glob_match(pat: Seq<char>, path: Seq<char>) -> bool;

/// Relies on glob::Pattern::new: whether a pattern string compiles depends
/// on the pattern string alone.
#[verifier::external_body]
pub fn glob_pattern_ok(pat: &str) -> (r: bool)
    ensures
        r == glob_valid(pat@),
{
    glob::Pattern::new(pat).is_ok()
}

/// Relies on glob::Pattern::new and glob::Pattern::matches: compiling
/// succeeds exactly on the patterns it accepts, and matching under the
/// default options is a function of the pattern string and the path string
/// alone.
#[verifier::external_body]
pub fn glob_match_path(pat: &str, path: &str) -> (r: Option<bool>)
    ensures
        r is Some <==> glob_valid(pat@),
        r matches Some(b) ==> b == glob_match(pat@, path@),
{
    match glob::Pattern::new(pat) {
        Ok(p) => Some(p.matches(path)),
        Err(_) => None,
    }
}

} // verus!

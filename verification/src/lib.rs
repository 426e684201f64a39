//! A hierarchical path-ignore rule engine.
//!
//! Glob-like pattern strings are compiled into token sequences and inserted
//! into a recursive tree of whitelist/exclude rule lists; the tree then
//! decides for any candidate relative path whether it is kept or rejected.
//!
//! Note the naming convention of this engine: a bare pattern is a whitelist
//! (include) rule, and a `!`-prefixed pattern is an exclude rule. A node with
//! no include rules rejects every path (default-deny).

pub mod filter;
pub mod ignore;

use vstd::prelude::*;

verus! {

/// A path is well formed when it is a non-empty `/`-separated sequence of
/// non-empty segments: not empty, and with no leading, trailing or doubled
/// separator.
pub open spec fn path_ok(s: Seq<char>) -> bool {
    &&& s.len() > 0
    &&& s[0] != '/'
    &&& s[s.len() - 1] != '/'
    &&& forall|i: int| 0 < i < s.len() ==> !(s[i - 1] == '/' && #[trigger] s[i] == '/')
}

/// A rule string is well formed when it is empty (a no-op) or, after the
/// optional leading negation marker `!`, a well-formed path: rules with
/// empty segments are rejected at the boundary.
pub open spec fn pattern_ok(s: Seq<char>) -> bool {
    s.len() == 0 || path_ok(
        if s[0] == '!' {
            s.drop_first()
        } else {
            s
        },
    )
}

/// What boundary validation can find wrong: a rule string or a candidate
/// path with an empty segment where a non-empty one is required.
#[derive(Clone, Copy, Debug, PartialEq, Eq, Structural)]
pub enum IgnoreError {
    InvalidPattern,
    InvalidPath,
}

/// Whether `s` is a well-formed `/`-separated path.
fn path_ok_exec(s: &str) -> (r: bool)
    ensures
        r == path_ok(s@),
{
    let n = s.unicode_len();
    if n == 0 {
        return false;
    }
    if s.get_char(0) == '/' {
        return false;
    }
    if s.get_char(n - 1) == '/' {
        return false;
    }
    let mut i: usize = 1;
    while i < n
        invariant
            1 <= i <= n,
            n == s@.len(),
            s@[0] != '/',
            s@[n - 1] != '/',
            forall|j: int| 0 < j < i ==> !(s@[j - 1] == '/' && #[trigger] s@[j] == '/'),
        decreases n - i,
    {
        if s.get_char(i - 1) == '/' && s.get_char(i) == '/' {
            return false;
        }
        i += 1;
    }
    true
}

/// Validates a candidate path at the API edge: well-formed paths pass, any
/// other string is an `InvalidPath`.
pub fn validate_path(path: &str) -> (r: Result<(), IgnoreError>)
    ensures
        r is Ok <==> path_ok(path@),
        r is Err ==> r->Err_0 == IgnoreError::InvalidPath,
{
    if path_ok_exec(path) {
        Result::Ok(())
    } else {
        Result::Err(IgnoreError::InvalidPath)
    }
}

/// Validates a rule string at the API edge: the empty rule and rules whose
/// body is a well-formed path pass, any other string is an
/// `InvalidPattern`.
pub fn validate_pattern(raw: &str) -> (r: Result<(), IgnoreError>)
    ensures
        r is Ok <==> pattern_ok(raw@),
        r is Err ==> r->Err_0 == IgnoreError::InvalidPattern,
{
    let n = raw.unicode_len();
    if n == 0 {
        return Result::Ok(());
    }
    let body: &str = if raw.get_char(0) == '!' {
        raw.substring_char(1, n)
    } else {
        raw
    };
    proof {
        if raw@[0] == '!' {
            assert(body@ =~= raw@.drop_first());
        }
    }
    if path_ok_exec(body) {
        Result::Ok(())
    } else {
        Result::Err(IgnoreError::InvalidPattern)
    }
}

} // verus!

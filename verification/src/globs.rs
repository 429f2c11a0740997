//! Glob patterns, compiled once and matched against paths.

use vstd::prelude::*;

verus! {

#[verifier::external_type_specification]
#[verifier::external_body]
pub struct ExGlobSet(globset::GlobSet);

/// A compiled glob pattern, with the pattern it was compiled from.
pub struct GlobPattern {
    pattern: String,
    matcher: globset::GlobSet,
}

impl View for GlobPattern {
    type V = Seq<char>;

    closed spec fn view(&self) -> Seq<char> {
        self.pattern@
    }
}

/// A name for what `globset::Glob::new` reports for `pattern`: the error's
/// text, or `None` when it parses.
pub uninterp spec fn glob_parse_error(pattern: Seq<char>) -> Option<Seq<char>>;

/// A name for what `globset::GlobSetBuilder::build` reports for a set of the
/// one glob parsed from `pattern`: the error's text (such as a regex nested
/// too deeply), or `None` when it builds.
pub uninterp spec fn globset_build_error(pattern: Seq<char>) -> Option<Seq<char>>;

/// Why `pattern` does not compile: its parse error, or else its build error;
/// `None` when it compiles.
pub open spec fn glob_compile_error(pattern: Seq<char>) -> Option<Seq<char>> {
    match glob_parse_error(pattern) {
        Some(message) => Some(message),
        None => globset_build_error(pattern),
    }
}

/// A name for what `GlobSet::is_match` answers, for the set of the one glob
/// compiled from `pattern`, given `path`.
pub uninterp spec fn glob_matches(pattern: Seq<char>, path: Seq<char>) -> bool;

/// `globset::Glob::new` with default options, then a `GlobSetBuilder` with
/// that one glob, built. Both steps report failure as an error, never a
/// panic. The contract claims only that the outcome is the one named for the
/// pattern: the compiled pattern remembers it, or the error's text is the one
/// named by [`glob_parse_error`], or, when the glob parsed, by
/// [`globset_build_error`]; how a pattern parses and builds is left to the
/// names.
#[verifier::external_body]
pub(crate) fn compile_glob(pattern: &str) -> (r: Result<GlobPattern, String>)
    ensures
        match r {
            Ok(glob) => glob@ == pattern@ && glob_parse_error(pattern@) is None
                && globset_build_error(pattern@) is None,
            Err(message) => glob_parse_error(pattern@) == Some(message@) || (glob_parse_error(
                pattern@,
            ) is None && globset_build_error(pattern@) == Some(message@)),
        },
{
    match globset::Glob::new(pattern) {
        Err(error) => Err(error.to_string()),
        Ok(glob) => match globset::GlobSetBuilder::new().add(glob).build() {
            Ok(set) => Ok(GlobPattern { pattern: pattern.to_string(), matcher: set }),
            Err(error) => Err(error.to_string()),
        },
    }
}

/// `GlobSet::is_match` on a path. The contract claims that the answer
/// depends on the compiled pattern and the path alone, through
/// [`glob_matches`]; what matches is left to the name.
#[verifier::external_body]
pub(crate) fn glob_is_match(glob: &GlobPattern, path: &str) -> (r: bool)
    ensures
        r == glob_matches(glob@, path@),
{
    glob.matcher.is_match(path)
}

} // verus!

//! Glob patterns for file-name filtering, compiled and matched by the
//! `globset` crate.

use vstd::prelude::*;

verus! {

#[verifier::external_type_specification]
#[verifier::external_body]
pub struct ExGlobSet(globset::GlobSet);

/// Whether `pattern` is a glob the matcher accepts: it parses, and its
/// compiled form stays within the matcher's size limits.  A function of
/// the pattern text alone.
pub uninterp spec fn glob_pattern_ok(pattern: Seq<char>) -> bool;

/// Whether `name` matches the glob `pattern`.  Matching is a function of
/// the two texts alone; what it says for given texts is left to the
/// matcher.  (The matcher's default for backslash escaping is a
/// compile-time platform constant, so the function is fixed within any
/// one build, like the width of `usize`.)
pub uninterp spec fn glob_match(pattern: Seq<char>, name: Seq<char>) -> bool;

/// A compiled glob pattern, kept together with the text it was compiled
/// from.
pub struct GlobPattern {
    text: String,
    matcher: globset::GlobSet,
}

/// The pattern texts of an optional glob.
pub open spec fn pattern_of(o: Option<GlobPattern>) -> Option<Seq<char>> {
    match o {
        Option::Some(g) => Option::Some(g.pattern()),
        Option::None => Option::None,
    }
}

impl GlobPattern {
    /// The pattern text this matcher was compiled from.
    pub closed spec fn pattern(&self) -> Seq<char> {
        self.text@
    }

    /// Relies on globset::Glob::new and GlobSetBuilder::build: whether a
    /// pattern parses and its matcher compiles within the size limits
    /// depends on the text alone; both steps report failure as an error
    /// value rather than panicking, and the matcher built is for exactly
    /// this pattern text.
    #[verifier::external_body]
    pub fn new(text: &str) -> (r: Option<GlobPattern>)
        ensures
            r is Some <==> glob_pattern_ok(text@),
            r matches Some(g) ==> g.pattern() == text@,
    {
        let glob = match globset::Glob::new(text) {
            Ok(glob) => glob,
            Err(_) => {
                return None;
            },
        };
        let mut builder = globset::GlobSetBuilder::new();
        builder.add(glob);
        match builder.build() {
            Ok(set) => Some(GlobPattern { text: text.to_owned(), matcher: set }),
            Err(_) => None,
        }
    }

    /// Relies on globset::GlobSet::is_match: a one-glob set matches a
    /// name exactly when its glob does, decided by the compiled pattern
    /// and the name alone, the same way on every call.
    #[verifier::external_body]
    pub fn is_match(&self, name: &str) -> (r: bool)
        ensures
            r == glob_match(self.pattern(), name@),
    {
        self.matcher.is_match(name)
    }

    /// Relies on String::clone and the derived Clone of
    /// globset::GlobSet: the copy carries the same pattern and matches as
    /// the original does.
    #[verifier::external_body]
    pub fn duplicate(&self) -> (r: GlobPattern)
        ensures
            r.pattern() == self.pattern(),
    {
        GlobPattern { text: self.text.clone(), matcher: self.matcher.clone() }
    }
}

} // verus!

//! Compiled name patterns.
//!
//! A rule recognises a directory by the names of its children. Each required
//! name is written as a regular expression; a child name satisfies it only
//! when the whole name matches (the expression is anchored on both sides at
//! compilation). The regular-expression engine is an outside crate, so its
//! two verdicts are named rather than spelled out: whether a pattern is a
//! valid expression at all ([`pattern_compiles`]) and whether a given name
//! matches it ([`regex_whole_match`]).

use vstd::prelude::*;

verus! {

#[verifier::external_type_specification]
#[verifier::external_body]
pub struct ExRegex(regex::Regex);

/// Whether the whole of `name` matches the regular expression written as
/// `pat`. The result is a function of the two strings alone; what it is on
/// given strings is decided by the regular-expression engine, never by a
/// contract of this crate.
pub uninterp spec fn regex_whole_match(pat: Seq<char>, name: Seq<char>) -> bool;

/// Whether `src` is a regular expression the engine accepts: compiling it
/// (anchored) succeeds. A function of the pattern string alone.
pub uninterp spec fn pattern_compiles(src: Seq<char>) -> bool;

/// A name pattern compiled for whole-name matching.
///
/// `src` is the pattern as written; `re` is its compilation, anchored as
/// `^(src)$`. The fields are private: the only constructor is
/// [`str_to_regex`], which keeps the two in step, and every later use goes
/// through [`NameMatcher::is_match`].
pub struct NameMatcher {
    re: regex::Regex,
    src: String,
}

impl NameMatcher {
    /// The pattern this matcher was compiled from.
    pub closed spec fn pat(&self) -> Seq<char> {
        self.src@
    }

    /// The pattern as written, for display.
    pub fn source(&self) -> (s: &String)
        ensures
            s@ == self.pat(),
    {
        &self.src
    }

    /// Relies on regex::Regex::is_match: whether the haystack matches, a
    /// function of the compiled expression and the haystack alone. The
    /// expression is the anchored compilation of `self.src` (see
    /// [`str_to_regex`]), so the result is `regex_whole_match` of the
    /// pattern and the name.
    #[verifier::external_body]
    pub fn is_match(&self, name: &str) -> (r: bool)
        ensures
            r == regex_whole_match(self.pat(), name@),
    {
        self.re.is_match(name)
    }
}

/// Relies on regex::Regex::new: compiling `^(s)$` yields a matcher for
/// exactly that expression when `s` is a valid regular expression, and an
/// error otherwise — an outcome that depends on the pattern string alone,
/// named by [`pattern_compiles`]. The error case carries the engine's
/// message; the caller decides how to report it.
#[verifier::external_body]
pub fn str_to_regex(s: &str) -> (r: Result<NameMatcher, String>)
    ensures
        r is Ok <==> pattern_compiles(s@),
        r matches Ok(m) ==> m.pat() == s@,
{
    let anchored = format!("^({})$", s);
    match regex::Regex::new(&anchored) {
        Ok(re) => Ok(NameMatcher { re, src: s.to_string() }),
        Err(e) => Err(e.to_string()),
    }
}

/// Compiles each pattern in turn, succeeding exactly when every pattern is
/// a valid regular expression; otherwise `bad` names the first pattern that
/// is not.
pub fn compile_all(srcs: &Vec<String>) -> (r: Result<Vec<NameMatcher>, usize>)
    ensures
        r is Ok <==> (forall|i: int|
            0 <= i < srcs@.len() ==> #[trigger] pattern_compiles(srcs@[i]@)),
        r matches Ok(ms) ==> {
            &&& ms@.len() == srcs@.len()
            &&& forall|i: int| 0 <= i < ms@.len() ==> (#[trigger] ms@[i].pat()) == srcs@[i]@
        },
        r matches Err(bad) ==> {
            &&& bad < srcs@.len()
            &&& !pattern_compiles(srcs@[bad as int]@)
            &&& forall|j: int| 0 <= j < bad ==> #[trigger] pattern_compiles(srcs@[j]@)
        },
{
    let mut out: Vec<NameMatcher> = Vec::new();
    let mut i: usize = 0;
    while i < srcs.len()
        invariant
            i <= srcs@.len(),
            out@.len() == i,
            forall|j: int| 0 <= j < i ==> (#[trigger] out@[j].pat()) == srcs@[j]@,
            forall|j: int| 0 <= j < i ==> #[trigger] pattern_compiles(srcs@[j]@),
        decreases srcs@.len() - i,
    {
        match str_to_regex(srcs[i].as_str()) {
            Ok(m) => {
                out.push(m);
            },
            Err(_) => {
                return Err(i);
            },
        }
        i = i + 1;
    }
    Ok(out)
}

} // verus!

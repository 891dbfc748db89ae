//! Rules and their structural classification.
//!
//! A [`Pattern`] describes one directory signature: required file-name
//! patterns, required subdirectory-name patterns, verification commands and
//! cleanup commands. A directory satisfies the structural part of a rule
//! when every required file pattern is matched by the name of some plain
//! file directly inside it and every required directory pattern by the name
//! of some immediate subdirectory. Entries that are neither plain files nor
//! directories (sockets, symlinks, devices) never contribute.

use vstd::prelude::*;

use crate::matcher::NameMatcher;
use crate::matcher::regex_whole_match;

verus! {

/// The kind of a directory entry, as far as classification cares.
#[derive(Clone, Copy, PartialEq, Eq, Structural, Debug)]
pub enum EntryKind {
    File,
    Dir,
    Other,
}

/// One direct child of a directory: its name and its kind.
#[derive(Debug, PartialEq, Eq)]
pub struct Entry {
    pub name: String,
    pub kind: EntryKind,
}

/// Mathematical image of an [`Entry`].
pub ghost struct EntryModel {
    pub name: Seq<char>,
    pub kind: EntryKind,
}

impl View for Entry {
    type V = EntryModel;

    open spec fn view(&self) -> EntryModel {
        EntryModel { name: self.name@, kind: self.kind }
    }
}

/// The views of a sequence of entries.
pub open spec fn entries_view(s: Seq<Entry>) -> Seq<EntryModel> {
    s.map_values(|e: Entry| e@)
}

/// The pattern sources of a sequence of matchers.
pub open spec fn pats_view(s: Seq<NameMatcher>) -> Seq<Seq<char>> {
    s.map_values(|m: NameMatcher| m.pat())
}

/// The views of a sequence of strings.
pub open spec fn strings_view(s: Seq<String>) -> Seq<Seq<char>> {
    s.map_values(|c: String| c@)
}

/// One rule: a directory signature together with the commands that verify
/// and clean a candidate. Immutable once built; the builders consume and
/// return the rule, so a finished value is never changed in place.
pub struct Pattern {
    pub name: String,
    pub files_exist: Vec<NameMatcher>,
    pub dirs_exist: Vec<NameMatcher>,
    pub check_commands: Vec<String>,
    pub clean_commands: Vec<String>,
}

/// Mathematical image of a [`Pattern`]: every component as a sequence of
/// character sequences.
#[verifier::ext_equal]
pub ghost struct PatternModel {
    pub name: Seq<char>,
    pub files_exist: Seq<Seq<char>>,
    pub dirs_exist: Seq<Seq<char>>,
    pub check_commands: Seq<Seq<char>>,
    pub clean_commands: Seq<Seq<char>>,
}

impl View for Pattern {
    type V = PatternModel;

    open spec fn view(&self) -> PatternModel {
        PatternModel {
            name: self.name@,
            files_exist: pats_view(self.files_exist@),
            dirs_exist: pats_view(self.dirs_exist@),
            check_commands: strings_view(self.check_commands@),
            clean_commands: strings_view(self.clean_commands@),
        }
    }
}

/// The views of a sequence of rules.
pub open spec fn rules_view(s: Seq<Pattern>) -> Seq<PatternModel> {
    s.map_values(|p: Pattern| p@)
}

impl Pattern {
    /// A rule with the given display name and nothing required: no name
    /// patterns, no commands.
    pub fn new(name: String) -> (p: Pattern)
        ensures
            p@ == (PatternModel {
                name: name@,
                files_exist: Seq::<Seq<char>>::empty(),
                dirs_exist: Seq::<Seq<char>>::empty(),
                check_commands: Seq::<Seq<char>>::empty(),
                clean_commands: Seq::<Seq<char>>::empty(),
            }),
    {
        let p = Pattern {
            name,
            files_exist: Vec::new(),
            dirs_exist: Vec::new(),
            check_commands: Vec::new(),
            clean_commands: Vec::new(),
        };
        assert(p.files_exist@ =~= Seq::<NameMatcher>::empty());
        assert(p@.files_exist =~= Seq::<Seq<char>>::empty());
        assert(p@.dirs_exist =~= Seq::<Seq<char>>::empty());
        assert(p@.check_commands =~= Seq::<Seq<char>>::empty());
        assert(p@.clean_commands =~= Seq::<Seq<char>>::empty());
        p
    }

    /// The same rule with its required file patterns replaced.
    pub fn files_exist(self, pats: Vec<NameMatcher>) -> (p: Pattern)
        ensures
            p@ == (PatternModel { files_exist: pats_view(pats@), ..self@ }),
    {
        Pattern { files_exist: pats, ..self }
    }

    /// The same rule with its required directory patterns replaced.
    pub fn dirs_exist(self, pats: Vec<NameMatcher>) -> (p: Pattern)
        ensures
            p@ == (PatternModel { dirs_exist: pats_view(pats@), ..self@ }),
    {
        Pattern { dirs_exist: pats, ..self }
    }

    /// The same rule with its verification commands replaced.
    pub fn check_commands(self, cmds: Vec<String>) -> (p: Pattern)
        ensures
            p@ == (PatternModel { check_commands: strings_view(cmds@), ..self@ }),
    {
        Pattern { check_commands: cmds, ..self }
    }

    /// The same rule with its cleanup commands replaced.
    pub fn clean_commands(self, cmds: Vec<String>) -> (p: Pattern)
        ensures
            p@ == (PatternModel { clean_commands: strings_view(cmds@), ..self@ }),
    {
        Pattern { clean_commands: cmds, ..self }
    }
}

/// Whether some entry of `entries` has kind `kind` and a name that the
/// pattern `pat` matches in whole.
pub open spec fn pattern_satisfied(pat: Seq<char>, entries: Seq<EntryModel>, kind: EntryKind) -> bool {
    exists|i: int|
        0 <= i < entries.len() && entries[i].kind == kind && regex_whole_match(
            pat,
            entries[i].name,
        )
}

/// Whether every pattern of `pats` is satisfied by some entry of kind
/// `kind`.
pub open spec fn all_satisfied(pats: Seq<Seq<char>>, entries: Seq<EntryModel>, kind: EntryKind) -> bool {
    forall|j: int| 0 <= j < pats.len() ==> pattern_satisfied(#[trigger] pats[j], entries, kind)
}

/// The structural half of classification: every required file pattern is
/// satisfied by some plain file and every required directory pattern by
/// some subdirectory.
pub open spec fn structural_match(r: PatternModel, entries: Seq<EntryModel>) -> bool {
    &&& all_satisfied(r.files_exist, entries, EntryKind::File)
    &&& all_satisfied(r.dirs_exist, entries, EntryKind::Dir)
}

/// Whether some entry of the given kind satisfies the matcher.
fn some_entry_matches(m: &NameMatcher, entries: &Vec<Entry>, kind: EntryKind) -> (r: bool)
    ensures
        r == pattern_satisfied(m.pat(), entries_view(entries@), kind),
{
    let mut i: usize = 0;
    while i < entries.len()
        invariant
            i <= entries@.len(),
            forall|k: int|
                0 <= k < i ==> !(entries_view(entries@)[k].kind == kind && regex_whole_match(
                    m.pat(),
                    entries_view(entries@)[k].name,
                )),
        decreases entries@.len() - i,
    {
        let e = &entries[i];
        if e.kind == kind && m.is_match(e.name.as_str()) {
            assert(entries_view(entries@)[i as int].kind == kind && regex_whole_match(
                m.pat(),
                entries_view(entries@)[i as int].name,
            ));
            return true;
        }
        i = i + 1;
    }
    false
}

/// Whether every matcher is satisfied by some entry of the given kind.
fn all_matchers_satisfied(ms: &Vec<NameMatcher>, entries: &Vec<Entry>, kind: EntryKind) -> (r:
    bool)
    ensures
        r == all_satisfied(pats_view(ms@), entries_view(entries@), kind),
{
    let mut j: usize = 0;
    while j < ms.len()
        invariant
            j <= ms@.len(),
            forall|k: int|
                0 <= k < j ==> pattern_satisfied(
                    #[trigger] pats_view(ms@)[k],
                    entries_view(entries@),
                    kind,
                ),
        decreases ms@.len() - j,
    {
        if !some_entry_matches(&ms[j], entries, kind) {
            assert(!pattern_satisfied(pats_view(ms@)[j as int], entries_view(entries@), kind));
            return false;
        }
        j = j + 1;
    }
    true
}

impl Pattern {
    /// The structural half of classification against one directory listing:
    /// true exactly when every required file pattern is satisfied by some
    /// plain file in the listing and every required directory pattern by
    /// some subdirectory. No commands are involved.
    pub fn matches_listing(&self, entries: &Vec<Entry>) -> (r: bool)
        ensures
            r == structural_match(self@, entries_view(entries@)),
    {
        let files_ok = all_matchers_satisfied(&self.files_exist, entries, EntryKind::File);
        if !files_ok {
            return false;
        }
        all_matchers_satisfied(&self.dirs_exist, entries, EntryKind::Dir)
    }
}

/// The built-in rule set, in priority order.
pub open spec fn builtin_models() -> Seq<PatternModel> {
    seq![
        PatternModel {
            name: "built Rust project"@,
            files_exist: seq!["Cargo.toml"@],
            dirs_exist: seq!["target"@],
            check_commands: Seq::empty(),
            clean_commands: seq!["cargo clean"@],
        },
        PatternModel {
            name: "Makefile with clean target"@,
            files_exist: seq!["Makefile|makefile"@],
            dirs_exist: Seq::empty(),
            check_commands: seq!["make clean --dry-run"@],
            clean_commands: seq!["make clean"@],
        },
        PatternModel {
            name: "contains __pycache__/"@,
            files_exist: Seq::empty(),
            dirs_exist: seq!["__pycache__"@],
            check_commands: Seq::empty(),
            clean_commands: seq!["rm -r __pycache__"@],
        },
        PatternModel {
            name: "contains compiled python"@,
            files_exist: seq![".*\\.py[co]"@],
            dirs_exist: Seq::empty(),
            check_commands: Seq::empty(),
            clean_commands: seq!["rm *.pyc *.pyo"@],
        },
        PatternModel {
            name: "git repo"@,
            files_exist: Seq::empty(),
            dirs_exist: seq![".git"@],
            check_commands: Seq::empty(),
            clean_commands: seq!["git gc --aggressive"@],
        },
        PatternModel {
            name: "build.ninja with clean target"@,
            files_exist: seq!["build.ninja"@],
            dirs_exist: Seq::empty(),
            check_commands: seq!["ninja clean -n"@],
            clean_commands: seq!["ninja clean"@],
        },
    ]
}

/// Why rule compilation failed: the offending pattern as written, and the
/// regular-expression engine's message.
#[derive(Debug, PartialEq, Eq)]
pub struct PatternError {
    pub pattern: String,
    pub message: String,
}

/// One name pattern, compiled alone: a matcher exactly when the pattern is
/// a valid regular expression.
fn one_matcher(src: &str) -> (r: Result<Vec<NameMatcher>, PatternError>)
    ensures
        r is Ok <==> crate::matcher::pattern_compiles(src@),
        r matches Ok(ms) ==> pats_view(ms@) =~= seq![src@],
        r matches Err(e) ==> e.pattern@ == src@,
    {
    match crate::matcher::str_to_regex(src) {
        Ok(m) => {
            let mut v: Vec<NameMatcher> = Vec::new();
            v.push(m);
            Ok(v)
        },
        Err(message) => Err(PatternError { pattern: crate::str_to_string(src), message }),
    }
}

/// One command, alone.
fn one_command(cmd: &str) -> (r: Vec<String>)
    ensures
        strings_view(r@) =~= seq![cmd@],
{
    let mut v: Vec<String> = Vec::new();
    v.push(crate::str_to_string(cmd));
    v
}

/// Whether every name pattern of the built-in rules is a regular expression
/// the engine accepts.
pub open spec fn builtin_sources_compile() -> bool {
    &&& crate::matcher::pattern_compiles("Cargo.toml"@)
    &&& crate::matcher::pattern_compiles("target"@)
    &&& crate::matcher::pattern_compiles("Makefile|makefile"@)
    &&& crate::matcher::pattern_compiles("__pycache__"@)
    &&& crate::matcher::pattern_compiles(".*\\.py[co]"@)
    &&& crate::matcher::pattern_compiles(".git"@)
    &&& crate::matcher::pattern_compiles("build.ninja"@)
}

/// The built-in rules, compiled: recognise a built Rust project, a Makefile
/// or ninja build with a working clean target, Python caches and compiled
/// Python files, and git repositories. Succeeds exactly when every built-in
/// name pattern is a valid regular expression; otherwise the error names
/// the first pattern that is not, with the engine's message.
pub fn builtin_patterns() -> (r: Result<Vec<Pattern>, PatternError>)
    ensures
        r is Ok <==> builtin_sources_compile(),
        r matches Ok(ps) ==> rules_view(ps@) == builtin_models(),
        r matches Err(e) ==> !crate::matcher::pattern_compiles(e.pattern@),
{
    let f_cargo = match one_matcher("Cargo.toml") {
        Ok(v) => v,
        Err(e) => {
            return Err(e);
        },
    };
    let d_target = match one_matcher("target") {
        Ok(v) => v,
        Err(e) => {
            return Err(e);
        },
    };
    let f_make = match one_matcher("Makefile|makefile") {
        Ok(v) => v,
        Err(e) => {
            return Err(e);
        },
    };
    let d_pycache = match one_matcher("__pycache__") {
        Ok(v) => v,
        Err(e) => {
            return Err(e);
        },
    };
    let f_pyc = match one_matcher(".*\\.py[co]") {
        Ok(v) => v,
        Err(e) => {
            return Err(e);
        },
    };
    let d_git = match one_matcher(".git") {
        Ok(v) => v,
        Err(e) => {
            return Err(e);
        },
    };
    let f_ninja = match one_matcher("build.ninja") {
        Ok(v) => v,
        Err(e) => {
            return Err(e);
        },
    };
    let rust_proj = Pattern::new(crate::str_to_string("built Rust project")).files_exist(
        f_cargo,
    ).dirs_exist(d_target).clean_commands(one_command("cargo clean"));
    let makefile_clean_proj = Pattern::new(
        crate::str_to_string("Makefile with clean target"),
    ).files_exist(f_make).check_commands(one_command("make clean --dry-run")).clean_commands(
        one_command("make clean"),
    );
    let has_pycache = Pattern::new(crate::str_to_string("contains __pycache__/")).dirs_exist(
        d_pycache,
    ).clean_commands(one_command("rm -r __pycache__"));
    let has_compiled_pyth = Pattern::new(
        crate::str_to_string("contains compiled python"),
    ).files_exist(f_pyc).clean_commands(one_command("rm *.pyc *.pyo"));
    let git_repo = Pattern::new(crate::str_to_string("git repo")).dirs_exist(
        d_git,
    ).clean_commands(one_command("git gc --aggressive"));
    let ninja_clean_proj = Pattern::new(
        crate::str_to_string("build.ninja with clean target"),
    ).files_exist(f_ninja).check_commands(one_command("ninja clean -n")).clean_commands(
        one_command("ninja clean"),
    );
    assert(rust_proj@ =~= builtin_models()[0]);
    assert(makefile_clean_proj@ =~= builtin_models()[1]);
    assert(has_pycache@ =~= builtin_models()[2]);
    assert(has_compiled_pyth@ =~= builtin_models()[3]);
    assert(git_repo@ =~= builtin_models()[4]);
    assert(ninja_clean_proj@ =~= builtin_models()[5]);
    let mut ps: Vec<Pattern> = Vec::new();
    ps.push(rust_proj);
    ps.push(makefile_clean_proj);
    ps.push(has_pycache);
    ps.push(has_compiled_pyth);
    ps.push(git_repo);
    ps.push(ninja_clean_proj);
    assert(rules_view(ps@) =~= builtin_models());
    Ok(ps)
}

} // verus!

//! Unit tests for the pattern, matcher and command pieces.

use dirclean::command::{interpret_raw, CmdError, RawStatus};
use dirclean::matcher::{compile_all, str_to_regex};
use dirclean::rules::{builtin_patterns, Entry, EntryKind, Pattern};
use dirclean::str_to_string;
use dirclean::walker::{summarize, Cause, Report};

#[test]
fn str_to_string_copies() {
    let s = str_to_string("hello");
    assert_eq!(s, "hello".to_string());
    assert_eq!(str_to_string(""), String::new());
}

#[test]
fn patterns_match_whole_names_only() {
    let m = str_to_regex("Cargo.toml").expect("compiles");
    assert!(m.is_match("Cargo.toml"));
    // The dot is still a regex dot...
    assert!(m.is_match("CargoXtoml"));
    // ...but the expression is anchored on both sides.
    assert!(!m.is_match("aCargo.toml"));
    assert!(!m.is_match("Cargo.toml.bak"));
    assert_eq!(m.source(), "Cargo.toml");
}

#[test]
fn alternation_and_classes_compile() {
    let m = str_to_regex("Makefile|makefile").expect("compiles");
    assert!(m.is_match("Makefile"));
    assert!(m.is_match("makefile"));
    assert!(!m.is_match("GNUmakefile"));
    let pyc = str_to_regex(".*\\.py[co]").expect("compiles");
    assert!(pyc.is_match("mod.pyc"));
    assert!(pyc.is_match("mod.pyo"));
    assert!(!pyc.is_match("mod.py"));
}

#[test]
fn invalid_pattern_is_refused() {
    let e = match str_to_regex("(") {
        Err(e) => e,
        Ok(_) => panic!("an unbalanced group must not compile"),
    };
    assert!(!e.is_empty());
    assert!(str_to_regex("a[").is_err());
}

#[test]
fn compile_all_reports_first_bad_pattern() {
    let good = vec![str_to_string("a"), str_to_string("b")];
    let ms = compile_all(&good).expect("all compile");
    assert_eq!(ms.len(), 2);
    let mixed = vec![str_to_string("a"), str_to_string("("), str_to_string("[")];
    assert!(matches!(compile_all(&mixed), Err(1)));
}

fn entry(name: &str, kind: EntryKind) -> Entry {
    Entry {
        name: name.to_string(),
        kind,
    }
}

fn rule(files: &[&str], dirs: &[&str]) -> Pattern {
    let fs = files
        .iter()
        .map(|s| str_to_regex(s).expect("compiles"))
        .collect::<Vec<_>>();
    let ds = dirs
        .iter()
        .map(|s| str_to_regex(s).expect("compiles"))
        .collect::<Vec<_>>();
    Pattern::new(str_to_string("test rule"))
        .files_exist(fs)
        .dirs_exist(ds)
}

#[test]
fn listing_matches_when_every_pattern_is_satisfied() {
    let r = rule(&["Cargo.toml"], &["target"]);
    let listing = vec![
        entry("Cargo.toml", EntryKind::File),
        entry("target", EntryKind::Dir),
        entry("src", EntryKind::Dir),
    ];
    assert!(r.matches_listing(&listing));
}

#[test]
fn file_pattern_needs_a_plain_file() {
    let r = rule(&["Cargo.toml"], &[]);
    // The right name, but a directory: not a match.
    let listing = vec![entry("Cargo.toml", EntryKind::Dir)];
    assert!(!r.matches_listing(&listing));
    // Sockets, symlinks and devices never contribute.
    let other = vec![entry("Cargo.toml", EntryKind::Other)];
    assert!(!r.matches_listing(&other));
}

#[test]
fn every_pattern_needs_its_own_witness() {
    let r = rule(&["a.*", "b.*"], &[]);
    // Two files both satisfying only the first pattern: the second pattern
    // is unsatisfied, so there is no match.
    let listing = vec![
        entry("a1", EntryKind::File),
        entry("a2", EntryKind::File),
    ];
    assert!(!r.matches_listing(&listing));
    // One file may satisfy several patterns at once.
    let both = rule(&["a.*", ".*b"], &[]);
    let one = vec![entry("ab", EntryKind::File)];
    assert!(both.matches_listing(&one));
}

#[test]
fn empty_rule_matches_everything() {
    let r = rule(&[], &[]);
    assert!(r.matches_listing(&Vec::new()));
    assert!(r.matches_listing(&vec![entry("anything", EntryKind::File)]));
}

#[test]
fn empty_listing_fails_any_required_pattern() {
    let r = rule(&[".*"], &[]);
    assert!(!r.matches_listing(&Vec::new()));
}

#[test]
fn interpret_raw_statuses() {
    assert_eq!(interpret_raw(RawStatus::Finished(Some(0))), Ok(true));
    assert_eq!(interpret_raw(RawStatus::Finished(Some(1))), Ok(false));
    assert_eq!(interpret_raw(RawStatus::Finished(Some(2))), Ok(false));
    // Ended by a signal: no exit code, not a success.
    assert_eq!(interpret_raw(RawStatus::Finished(None)), Ok(false));
    // The timeout supervisor's code is a distinct error.
    assert_eq!(
        interpret_raw(RawStatus::Finished(Some(124))),
        Err(CmdError::TimedOut)
    );
    assert_eq!(
        interpret_raw(RawStatus::SpawnFailed("no shell".to_string())),
        Err(CmdError::Spawn("no shell".to_string()))
    );
}

#[test]
fn builtin_rules_are_complete() {
    let ps = builtin_patterns().expect("built-in patterns compile");
    let names = ps.iter().map(|p| p.name.as_str()).collect::<Vec<_>>();
    assert_eq!(
        names,
        vec![
            "built Rust project",
            "Makefile with clean target",
            "contains __pycache__/",
            "contains compiled python",
            "git repo",
            "build.ninja with clean target",
        ]
    );
    let rust = &ps[0];
    assert_eq!(rust.files_exist[0].source(), "Cargo.toml");
    assert_eq!(rust.dirs_exist[0].source(), "target");
    assert!(rust.check_commands.is_empty());
    assert_eq!(rust.clean_commands, vec!["cargo clean".to_string()]);
    let ninja = &ps[5];
    assert_eq!(ninja.check_commands, vec!["ninja clean -n".to_string()]);
    assert_eq!(ninja.clean_commands, vec!["ninja clean".to_string()]);
}

#[test]
fn summarize_counts_matches_and_cleans() {
    let reports = vec![
        Report::Matched {
            dir: "/a".to_string(),
            rule: "r".to_string(),
        },
        Report::Cleaned {
            dir: "/a".to_string(),
            rule: "r".to_string(),
        },
        Report::Matched {
            dir: "/b".to_string(),
            rule: "r".to_string(),
        },
        Report::CleanFailed {
            dir: "/b".to_string(),
            rule: "r".to_string(),
            cause: Cause::NonZeroExit,
        },
        Report::ListFailed {
            dir: "/c".to_string(),
            cause: Cause::Io("denied".to_string()),
        },
    ];
    let s = summarize(&reports);
    assert_eq!(s.matched, 2);
    assert_eq!(s.cleaned, 1);
    let empty = summarize(&Vec::new());
    assert_eq!((empty.matched, empty.cleaned), (0, 0));
}

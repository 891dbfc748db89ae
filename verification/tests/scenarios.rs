//! Whole-traversal scenarios, driven against an in-memory tree and scripted
//! command outcomes.

use std::collections::HashMap;

use dirclean::command::RawStatus;
use dirclean::matcher::str_to_regex;
use dirclean::rules::{builtin_patterns, Entry, EntryKind, Pattern};
use dirclean::str_to_string;
use dirclean::walker::{summarize, Action, Cause, Report, Walker};

/// An in-memory stand-in for the filesystem and the shell: listings per
/// path, exit codes per (directory, command) pair, and logs of everything
/// the walker asked for.
struct MockEnv {
    listings: HashMap<String, Result<Vec<(String, EntryKind)>, String>>,
    exit_codes: HashMap<(String, String), Option<i32>>,
    spawn_fail: Vec<(String, String)>,
    /// When (dir, cmd) runs, drop the named child of `parent` and its listing.
    on_run_remove: Vec<((String, String), (String, String))>,
    list_log: Vec<String>,
    run_log: Vec<(String, String)>,
}

impl MockEnv {
    fn new() -> MockEnv {
        MockEnv {
            listings: HashMap::new(),
            exit_codes: HashMap::new(),
            spawn_fail: Vec::new(),
            on_run_remove: Vec::new(),
            list_log: Vec::new(),
            run_log: Vec::new(),
        }
    }

    fn dir(&mut self, path: &str, entries: &[(&str, EntryKind)]) {
        let es = entries
            .iter()
            .map(|(n, k)| (n.to_string(), *k))
            .collect::<Vec<_>>();
        self.listings.insert(path.to_string(), Ok(es));
    }

    fn dir_err(&mut self, path: &str, msg: &str) {
        self.listings.insert(path.to_string(), Err(msg.to_string()));
    }

    fn exit_code(&mut self, dir: &str, cmd: &str, code: i32) {
        self.exit_codes
            .insert((dir.to_string(), cmd.to_string()), Some(code));
    }

    fn list(&mut self, dir: &str) -> Result<Vec<Entry>, String> {
        self.list_log.push(dir.to_string());
        match self.listings.get(dir) {
            Some(Ok(es)) => Ok(es
                .iter()
                .map(|(n, k)| Entry {
                    name: n.clone(),
                    kind: *k,
                })
                .collect()),
            Some(Err(m)) => Err(m.clone()),
            None => Ok(Vec::new()),
        }
    }

    fn status(&mut self, cmd: &str, dir: &str) -> RawStatus {
        self.run_log.push((cmd.to_string(), dir.to_string()));
        let key = (dir.to_string(), cmd.to_string());
        if self.spawn_fail.contains(&key) {
            return RawStatus::SpawnFailed("could not spawn shell".to_string());
        }
        let removals = self
            .on_run_remove
            .iter()
            .filter(|(k, _)| *k == key)
            .map(|(_, v)| v.clone())
            .collect::<Vec<_>>();
        for (parent, name) in removals {
            if let Some(Ok(es)) = self.listings.get_mut(&parent) {
                es.retain(|(n, _)| *n != name);
            }
            let gone = format!("{}/{}", parent, name);
            self.listings.remove(&gone);
        }
        let code = self.exit_codes.get(&key).cloned().unwrap_or(Some(0));
        RawStatus::Finished(code)
    }
}

fn drive(rules: Vec<Pattern>, root: &str, dry_run: bool, env: &mut MockEnv) -> Walker {
    let (mut w, mut a) = Walker::new(rules, root.to_string(), dry_run);
    let mut steps = 0;
    loop {
        steps += 1;
        assert!(steps < 100_000, "traversal did not finish");
        match a {
            Action::List { dir } => {
                let l = env.list(&dir);
                a = w.on_listing(l);
            }
            Action::Run { cmd, dir } => {
                let s = env.status(&cmd, &dir);
                a = w.on_status(s);
            }
            Action::Done => break,
        }
    }
    w
}

fn simple_rule(name: &str, file_pats: &[&str], dir_pats: &[&str], checks: &[&str], cleans: &[&str]) -> Pattern {
    let fs = file_pats
        .iter()
        .map(|s| str_to_regex(s).expect("pattern compiles"))
        .collect::<Vec<_>>();
    let ds = dir_pats
        .iter()
        .map(|s| str_to_regex(s).expect("pattern compiles"))
        .collect::<Vec<_>>();
    let cs = checks.iter().map(|s| str_to_string(s)).collect::<Vec<_>>();
    let cl = cleans.iter().map(|s| str_to_string(s)).collect::<Vec<_>>();
    Pattern::new(str_to_string(name))
        .files_exist(fs)
        .dirs_exist(ds)
        .check_commands(cs)
        .clean_commands(cl)
}

fn matched_reports(w: &Walker) -> Vec<(String, String)> {
    w.reports()
        .iter()
        .filter_map(|r| match r {
            Report::Matched { dir, rule } => Some((dir.clone(), rule.clone())),
            _ => None,
        })
        .collect()
}

#[test]
fn rust_project_match_dry_run() {
    let mut env = MockEnv::new();
    env.dir("/r", &[("proj", EntryKind::Dir)]);
    env.dir(
        "/r/proj",
        &[("Cargo.toml", EntryKind::File), ("target", EntryKind::Dir)],
    );
    env.dir("/r/proj/target", &[]);
    let rules = builtin_patterns().expect("built-in patterns compile");
    let w = drive(rules, "/r", true, &mut env);
    assert_eq!(
        matched_reports(&w),
        vec![("/r/proj".to_string(), "built Rust project".to_string())]
    );
    // Dry run: no subprocess at all is requested, in particular none for
    // `cargo clean`.
    assert!(env.run_log.is_empty());
    let s = summarize(w.reports());
    assert_eq!(s.matched, 1);
    assert_eq!(s.cleaned, 0);
}

#[test]
fn rust_project_cleanup_invoked() {
    let mut env = MockEnv::new();
    env.dir("/r", &[("proj", EntryKind::Dir)]);
    env.dir(
        "/r/proj",
        &[("Cargo.toml", EntryKind::File), ("target", EntryKind::Dir)],
    );
    env.dir("/r/proj/target", &[]);
    let rules = builtin_patterns().expect("built-in patterns compile");
    let w = drive(rules, "/r", false, &mut env);
    assert_eq!(
        matched_reports(&w),
        vec![("/r/proj".to_string(), "built Rust project".to_string())]
    );
    // `cargo clean` ran, with working directory the matched project.
    assert_eq!(
        env.run_log,
        vec![("cargo clean".to_string(), "/r/proj".to_string())]
    );
    let s = summarize(w.reports());
    assert_eq!(s.matched, 1);
    assert_eq!(s.cleaned, 1);
    assert!(w.reports().iter().any(|r| matches!(
        r,
        Report::Cleaned { dir, .. } if dir == "/r/proj"
    )));
}

#[test]
fn makefile_failing_check_is_no_match() {
    let mut env = MockEnv::new();
    env.dir("/r", &[("repo", EntryKind::Dir)]);
    env.dir("/r/repo", &[("Makefile", EntryKind::File)]);
    env.exit_code("/r/repo", "make clean --dry-run", 1);
    let rules = builtin_patterns().expect("built-in patterns compile");
    let w = drive(rules, "/r", false, &mut env);
    // The verification command ran and failed: an ordinary no-match, not an
    // error, and no cleanup.
    assert!(env
        .run_log
        .contains(&("make clean --dry-run".to_string(), "/r/repo".to_string())));
    assert!(!env
        .run_log
        .iter()
        .any(|(cmd, _)| cmd == "make clean"));
    assert!(matched_reports(&w).is_empty());
    assert!(w.reports().is_empty());
}

#[test]
fn makefile_passing_check_matches_and_cleans() {
    let mut env = MockEnv::new();
    env.dir("/r", &[("repo", EntryKind::Dir)]);
    env.dir("/r/repo", &[("Makefile", EntryKind::File)]);
    let rules = builtin_patterns().expect("built-in patterns compile");
    let w = drive(rules, "/r", false, &mut env);
    assert_eq!(
        matched_reports(&w),
        vec![("/r/repo".to_string(), "Makefile with clean target".to_string())]
    );
    assert_eq!(
        env.run_log,
        vec![
            ("make clean --dry-run".to_string(), "/r/repo".to_string()),
            ("make clean".to_string(), "/r/repo".to_string()),
        ]
    );
}

#[test]
fn pycache_cleanup_runs_before_enumeration() {
    let mut env = MockEnv::new();
    env.dir("/r", &[("pkg", EntryKind::Dir)]);
    env.dir("/r/pkg", &[("__pycache__", EntryKind::Dir)]);
    env.dir("/r/pkg/__pycache__", &[("m.pyc", EntryKind::File)]);
    env.on_run_remove.push((
        ("/r/pkg".to_string(), "rm -r __pycache__".to_string()),
        ("/r/pkg".to_string(), "__pycache__".to_string()),
    ));
    let rules = builtin_patterns().expect("built-in patterns compile");
    let w = drive(rules, "/r", false, &mut env);
    assert_eq!(
        matched_reports(&w),
        vec![("/r/pkg".to_string(), "contains __pycache__/".to_string())]
    );
    assert_eq!(
        env.run_log,
        vec![("rm -r __pycache__".to_string(), "/r/pkg".to_string())]
    );
    let s = summarize(w.reports());
    assert_eq!((s.matched, s.cleaned), (1, 1));
    // Children are enumerated after all rule processing, so the removed
    // cache directory is never pushed and never listed.
    assert!(!env.list_log.iter().any(|d| d == "/r/pkg/__pycache__"));
}

#[test]
fn timeout_is_a_distinct_error() {
    let mut env = MockEnv::new();
    env.dir("/r", &[("Makefile", EntryKind::File)]);
    env.exit_codes.insert(
        ("/r".to_string(), "make clean --dry-run".to_string()),
        Some(124),
    );
    let rules = builtin_patterns().expect("built-in patterns compile");
    let w = drive(rules, "/r", false, &mut env);
    // The timed-out verification command is a match error, not a no-match
    // and not a false success.
    assert!(w.reports().iter().any(|r| matches!(
        r,
        Report::MatchError { dir, rule, cause: Cause::TimedOut }
            if dir == "/r" && rule == "Makefile with clean target"
    )));
    assert!(matched_reports(&w).is_empty());
}

#[test]
fn timeout_during_cleanup_is_reported() {
    let mut env = MockEnv::new();
    env.dir("/r", &[("x", EntryKind::File)]);
    let rule = simple_rule("x files", &["x"], &[], &[], &["slow command"]);
    env.exit_code("/r", "slow command", 124);
    let w = drive(vec![rule], "/r", false, &mut env);
    assert!(w.reports().iter().any(|r| matches!(
        r,
        Report::CleanFailed { dir, cause: Cause::TimedOut, .. } if dir == "/r"
    )));
    let s = summarize(w.reports());
    assert_eq!((s.matched, s.cleaned), (1, 0));
}

#[test]
fn spawn_failure_is_a_match_error() {
    let mut env = MockEnv::new();
    env.dir("/r", &[("x", EntryKind::File)]);
    let rule = simple_rule("x files", &["x"], &[], &["probe"], &[]);
    env.spawn_fail.push(("/r".to_string(), "probe".to_string()));
    let w = drive(vec![rule], "/r", false, &mut env);
    assert!(w.reports().iter().any(|r| matches!(
        r,
        Report::MatchError { dir, cause: Cause::Spawn(_), .. } if dir == "/r"
    )));
    assert!(matched_reports(&w).is_empty());
}

#[test]
fn unreadable_directory_is_isolated() {
    let mut env = MockEnv::new();
    env.dir("/r", &[("a", EntryKind::Dir), ("b", EntryKind::Dir)]);
    env.dir_err("/r/a", "permission denied");
    env.dir("/r/a/aa", &[]);
    env.dir("/r/b", &[("bb", EntryKind::Dir)]);
    env.dir("/r/b/bb", &[]);
    let rule = simple_rule("git repo", &[], &["\\.git"], &[], &[]);
    let w = drive(vec![rule], "/r", false, &mut env);
    // The failing directory is reported twice: once while classifying, once
    // while enumerating children.
    assert!(w.reports().iter().any(|r| matches!(
        r,
        Report::MatchError { dir, cause: Cause::Io(m), .. }
            if dir == "/r/a" && m == "permission denied"
    )));
    assert!(w.reports().iter().any(|r| matches!(
        r,
        Report::ListFailed { dir, cause: Cause::Io(m) }
            if dir == "/r/a" && m == "permission denied"
    )));
    // Siblings and their descendants are still visited and evaluated.
    assert!(env.list_log.iter().any(|d| d == "/r/b"));
    assert!(env.list_log.iter().any(|d| d == "/r/b/bb"));
    // Nothing below the unreadable directory can be reached.
    assert!(!env.list_log.iter().any(|d| d == "/r/a/aa"));
}

#[test]
fn every_directory_visited_exactly_once() {
    let mut env = MockEnv::new();
    env.dir("/r", &[("a", EntryKind::Dir), ("b", EntryKind::Dir)]);
    env.dir("/r/a", &[("c", EntryKind::Dir), ("f", EntryKind::File)]);
    env.dir("/r/a/c", &[]);
    env.dir("/r/b", &[]);
    // With no rules every visit is exactly one listing.
    let w = drive(Vec::new(), "/r", false, &mut env);
    let mut log = env.list_log.clone();
    log.sort();
    assert_eq!(log, vec!["/r", "/r/a", "/r/a/c", "/r/b"]);
    assert!(w.reports().is_empty());
}

#[test]
fn dry_run_twice_is_identical() {
    fn build() -> MockEnv {
        let mut env = MockEnv::new();
        env.dir("/r", &[("proj", EntryKind::Dir), ("repo", EntryKind::Dir)]);
        env.dir(
            "/r/proj",
            &[("Cargo.toml", EntryKind::File), ("target", EntryKind::Dir)],
        );
        env.dir("/r/proj/target", &[("debug", EntryKind::Dir)]);
        env.dir("/r/proj/target/debug", &[]);
        env.dir("/r/repo", &[("Makefile", EntryKind::File)]);
        env
    }
    let mut env1 = build();
    let mut env2 = build();
    let rules1 = builtin_patterns().expect("built-in patterns compile");
    let rules2 = builtin_patterns().expect("built-in patterns compile");
    let w1 = drive(rules1, "/r", true, &mut env1);
    let w2 = drive(rules2, "/r", true, &mut env2);
    assert_eq!(w1.reports(), w2.reports());
    assert_eq!(env1.list_log, env2.list_log);
    assert_eq!(env1.run_log, env2.run_log);
    // Verification commands still run in a dry run; cleanups never do.
    assert!(env1
        .run_log
        .contains(&("make clean --dry-run".to_string(), "/r/repo".to_string())));
    assert!(!env1.run_log.iter().any(|(cmd, _)| cmd == "make clean"));
}

#[test]
fn match_error_stops_rules_for_that_directory_only() {
    let mut env = MockEnv::new();
    env.dir("/r", &[("x", EntryKind::File), ("sub", EntryKind::Dir)]);
    env.dir("/r/sub", &[("x", EntryKind::File)]);
    let first = simple_rule("first", &["x"], &[], &["probe"], &[]);
    let second = simple_rule("second", &["x"], &[], &[], &[]);
    env.spawn_fail.push(("/r".to_string(), "probe".to_string()));
    let w = drive(vec![first, second], "/r", true, &mut env);
    // In `/r` the first rule errored, so the second was never evaluated
    // there; in `/r/sub` both rules ran and matched.
    assert_eq!(
        matched_reports(&w),
        vec![
            ("/r/sub".to_string(), "first".to_string()),
            ("/r/sub".to_string(), "second".to_string()),
        ]
    );
    assert_eq!(
        env.list_log.iter().filter(|d| **d == "/r").count(),
        2 // one classification listing, one children listing
    );
    assert_eq!(
        env.list_log.iter().filter(|d| **d == "/r/sub").count(),
        3 // two rules, then children
    );
}

#[test]
fn failing_cleanup_short_circuits_and_is_counted() {
    let mut env = MockEnv::new();
    env.dir("/r", &[("x", EntryKind::File)]);
    let rule = simple_rule("x files", &["x"], &[], &[], &["one", "two"]);
    env.exit_code("/r", "one", 1);
    let w = drive(vec![rule], "/r", false, &mut env);
    assert_eq!(
        env.run_log,
        vec![("one".to_string(), "/r".to_string())]
    );
    assert!(w.reports().iter().any(|r| matches!(
        r,
        Report::CleanFailed { cause: Cause::NonZeroExit, .. }
    )));
    let s = summarize(w.reports());
    assert_eq!((s.matched, s.cleaned), (1, 0));
}

#[test]
fn cleanup_commands_run_in_order_to_completion() {
    let mut env = MockEnv::new();
    env.dir("/r", &[("x", EntryKind::File)]);
    let rule = simple_rule("x files", &["x"], &[], &[], &["one", "two"]);
    let w = drive(vec![rule], "/r", false, &mut env);
    assert_eq!(
        env.run_log,
        vec![
            ("one".to_string(), "/r".to_string()),
            ("two".to_string(), "/r".to_string()),
        ]
    );
    let s = summarize(w.reports());
    assert_eq!((s.matched, s.cleaned), (1, 1));
}

#[test]
fn verification_commands_short_circuit() {
    let mut env = MockEnv::new();
    env.dir("/r", &[("x", EntryKind::File)]);
    let rule = simple_rule("x files", &["x"], &[], &["c1", "c2"], &["clean"]);
    env.exit_code("/r", "c1", 2);
    let w = drive(vec![rule], "/r", false, &mut env);
    assert_eq!(env.run_log, vec![("c1".to_string(), "/r".to_string())]);
    assert!(w.reports().is_empty());
    let w2 = {
        let mut env2 = MockEnv::new();
        env2.dir("/r", &[("x", EntryKind::File)]);
        let rule2 = simple_rule("x files", &["x"], &[], &["c1", "c2"], &["clean"]);
        let w2 = drive(vec![rule2], "/r", false, &mut env2);
        assert_eq!(
            env2.run_log,
            vec![
                ("c1".to_string(), "/r".to_string()),
                ("c2".to_string(), "/r".to_string()),
                ("clean".to_string(), "/r".to_string()),
            ]
        );
        w2
    };
    let s = summarize(w2.reports());
    assert_eq!((s.matched, s.cleaned), (1, 1));
}

#[test]
fn directory_matching_several_rules_is_cleaned_per_rule() {
    let mut env = MockEnv::new();
    env.dir(
        "/r",
        &[
            ("Cargo.toml", EntryKind::File),
            ("target", EntryKind::Dir),
            (".git", EntryKind::Dir),
        ],
    );
    env.dir("/r/target", &[]);
    env.dir("/r/.git", &[]);
    let rules = builtin_patterns().expect("built-in patterns compile");
    let w = drive(rules, "/r", false, &mut env);
    assert_eq!(
        matched_reports(&w),
        vec![
            ("/r".to_string(), "built Rust project".to_string()),
            ("/r".to_string(), "git repo".to_string()),
        ]
    );
    assert_eq!(
        env.run_log,
        vec![
            ("cargo clean".to_string(), "/r".to_string()),
            ("git gc --aggressive".to_string(), "/r".to_string()),
        ]
    );
    let s = summarize(w.reports());
    assert_eq!((s.matched, s.cleaned), (2, 2));
}

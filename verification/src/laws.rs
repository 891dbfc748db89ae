//! Properties of whole traversals.
//!
//! The walker's transitions are pinned to the specification functions
//! [`spec_on_listing`] and [`spec_on_status`], so a run of the machine is a
//! mathematical function of what the caller feeds in. This module models
//! the caller too — an [`Env`] answers every listing and every command —
//! and proves what holds of the runs:
//!
//! - a match is reported exactly when the listing succeeded, every required
//!   pattern is satisfied and every verification command exited 0
//!   ([`lemma_classify_matched_iff`] together with
//!   [`lemma_rule_classification`], which shows the machine realises
//!   [`classify`] rule by rule);
//! - dry runs issue no cleanup command and are idempotent
//!   ([`lemma_dry_run_issues_no_cleanup`],
//!   [`lemma_dry_traversal_issues_no_cleanup`],
//!   [`lemma_dry_run_idempotent`]);
//! - a directory whose enumeration fails is reported and stepped over
//!   without derailing the traversal
//!   ([`lemma_fault_isolation_classifying`],
//!   [`lemma_fault_isolation_enumerating`]);
//! - no traversal ever reports more completed cleanups than matches
//!   ([`lemma_traversal_cleaned_le_matched`]);
//! - over a whole modelled tree ([`DirNode`]), the traversal terminates and
//!   visits exactly the reachable directories, unreadable directories
//!   costing only their own descendants
//!   ([`lemma_traversal_completeness`]) — each exactly once, since a tree
//!   named as a filesystem is has pairwise distinct reachable paths
//!   ([`lemma_names_wf_no_duplicates`]).

use vstd::prelude::*;

use vstd::multiset::Multiset;

use crate::command::CmdErrorModel;
use crate::command::RawStatusModel;
use crate::command::spec_interpret;
use crate::rules::EntryKind;
use crate::rules::EntryModel;
use crate::rules::PatternModel;
use crate::rules::all_satisfied;
use crate::rules::structural_match;
use crate::walker::ActionModel;
use crate::walker::CauseModel;
use crate::walker::ModeModel;
use crate::walker::ReportModel;
use crate::walker::WalkerModel;
use crate::walker::child_path;
use crate::walker::count_cleaned;
use crate::walker::count_matched;
use crate::walker::mode_wf;
use crate::walker::spec_cause_of;
use crate::walker::spec_new;
use crate::walker::spec_next_dir;
use crate::walker::spec_on_listing;
use crate::walker::spec_on_status;
use crate::walker::subdir_paths;

verus! {

/// One event fed to the walker: the answer to one action.
pub ghost enum EventModel {
    Listing(Result<Seq<EntryModel>, Seq<char>>),
    Status(RawStatusModel),
}

/// One transition of the walker, whichever kind of event arrives.
pub open spec fn spec_step(s: WalkerModel, e: EventModel) -> (WalkerModel, ActionModel) {
    match e {
        EventModel::Listing(l) => spec_on_listing(s, l),
        EventModel::Status(r) => spec_on_status(s, r),
    }
}

/// A model of the walker's caller: what enumerating each directory yields,
/// and the raw status of each (directory, command) pair. An environment is
/// a fixed table, so it models a tree that no command modifies and commands
/// whose outcomes are stable across the run.
pub ghost struct Env {
    pub listings: Map<Seq<char>, Result<Seq<EntryModel>, Seq<char>>>,
    pub statuses: Map<(Seq<char>, Seq<char>), RawStatusModel>,
}

/// The environment's answer to an action.
pub open spec fn respond(env: Env, a: ActionModel) -> EventModel {
    match a {
        ActionModel::List { dir } => EventModel::Listing(env.listings[dir]),
        ActionModel::Run { cmd, dir } => EventModel::Status(env.statuses[(dir, cmd)]),
        ActionModel::Done => EventModel::Listing(Err(Seq::empty())),
    }
}

/// Running the walker against an environment for at most `fuel` steps,
/// starting from state `s` with `a` the action awaiting an answer.
pub open spec fn run(s: WalkerModel, a: ActionModel, env: Env, fuel: nat) -> (
    WalkerModel,
    ActionModel,
)
    decreases fuel,
{
    if fuel == 0 || a is Done {
        (s, a)
    } else {
        let (s2, a2) = spec_step(s, respond(env, a));
        run(s2, a2, env, (fuel - 1) as nat)
    }
}

/// The actions a run asks its environment to perform, in order.
pub open spec fn run_actions(s: WalkerModel, a: ActionModel, env: Env, fuel: nat) -> Seq<
    ActionModel,
>
    decreases fuel,
{
    if fuel == 0 || a is Done {
        Seq::empty()
    } else {
        let (s2, a2) = spec_step(s, respond(env, a));
        seq![a] + run_actions(s2, a2, env, (fuel - 1) as nat)
    }
}

/// A run of given fuel splits into a prefix and the run that continues from
/// where the prefix stopped.
pub proof fn lemma_run_splits(s: WalkerModel, a: ActionModel, env: Env, f1: nat, f2: nat)
    ensures
        run(s, a, env, f1 + f2) == run(run(s, a, env, f1).0, run(s, a, env, f1).1, env, f2),
    decreases f1,
{
    if f1 == 0 || a is Done {
        if a is Done {
            lemma_run_done(s, a, env, f1 + f2);
            lemma_run_done(s, a, env, f2);
        }
    } else {
        let (s2, a2) = spec_step(s, respond(env, a));
        lemma_run_splits(s2, a2, env, (f1 - 1) as nat, f2);
    }
}

/// A finished run stays where it is.
proof fn lemma_run_done(s: WalkerModel, a: ActionModel, env: Env, fuel: nat)
    requires
        a is Done,
    ensures
        run(s, a, env, fuel) == (s, a),
{
}

/// Every transition keeps the rules and the flag, and keeps the position's
/// indices inside the rule and command lists.
pub proof fn lemma_step_invariants(s: WalkerModel, e: EventModel)
    requires
        mode_wf(s),
    ensures
        mode_wf(spec_step(s, e).0),
        spec_step(s, e).0.rules == s.rules,
        spec_step(s, e).0.dry_run == s.dry_run,
{
}

// ---------------------------------------------------------------------
// Classification.
// ---------------------------------------------------------------------
/// The outcome of classifying one directory against one rule.
pub ghost enum MatchResult {
    /// The directory does not satisfy the rule; nothing is reported.
    NoMatch,
    /// The directory satisfies the rule.
    Matched,
    /// Something went wrong while checking: the listing failed, or a
    /// verification command hit a process-level error.
    MatchError(CauseModel),
}

/// The verdict of the verification commands, given their interpreted
/// outcomes in order: they run front to back, stopping at the first command
/// that does not succeed. A non-zero exit is an ordinary no-match; a
/// process-level error is a match error.
pub open spec fn checks_verdict(outcomes: Seq<Result<bool, CmdErrorModel>>) -> MatchResult
    decreases outcomes.len(),
{
    if outcomes.len() == 0 {
        MatchResult::Matched
    } else {
        match outcomes[0] {
            Result::Err(e) => MatchResult::MatchError(spec_cause_of(e)),
            Result::Ok(passed) => if !passed {
                MatchResult::NoMatch
            } else {
                checks_verdict(outcomes.drop_first())
            },
        }
    }
}

/// The classification of one directory against one rule: enumeration
/// failure is a match error before any pattern testing; a directory that
/// fails the structural check is no match and no command runs; otherwise
/// the verification commands decide. `outcomes` are the interpreted
/// statuses the rule's verification commands would yield, in order.
pub open spec fn classify(
    rule: PatternModel,
    listing: Result<Seq<EntryModel>, Seq<char>>,
    outcomes: Seq<Result<bool, CmdErrorModel>>,
) -> MatchResult {
    match listing {
        Result::Err(e) => MatchResult::MatchError(CauseModel::Io(e)),
        Result::Ok(entries) => if !structural_match(rule, entries) {
            MatchResult::NoMatch
        } else {
            checks_verdict(outcomes)
        },
    }
}

/// The command verdict is a match exactly when every command succeeded.
proof fn lemma_checks_verdict_matched(outcomes: Seq<Result<bool, CmdErrorModel>>)
    ensures
        checks_verdict(outcomes) is Matched <==> (forall|i: int|
            0 <= i < outcomes.len() ==> outcomes[i] == Ok::<bool, CmdErrorModel>(true)),
    decreases outcomes.len(),
{
    if outcomes.len() > 0 {
        lemma_checks_verdict_matched(outcomes.drop_first());
        let rest = outcomes.drop_first();
        assert(forall|i: int| 0 <= i < rest.len() ==> rest[i] == outcomes[i + 1]);
        if checks_verdict(outcomes) is Matched {
            assert forall|i: int| 0 <= i < outcomes.len() implies outcomes[i] == Ok::<
                bool,
                CmdErrorModel,
            >(true) by {
                if i > 0 {
                    assert(outcomes[i] == rest[i - 1]);
                }
            }
        }
    }
}

/// A directory is classified as matched exactly when its listing
/// succeeded, every required file pattern is satisfied by some plain file,
/// every required directory pattern is satisfied by some subdirectory, and
/// every verification command of the rule succeeded.
pub proof fn lemma_classify_matched_iff(
    rule: PatternModel,
    listing: Result<Seq<EntryModel>, Seq<char>>,
    outcomes: Seq<Result<bool, CmdErrorModel>>,
)
    ensures
        classify(rule, listing, outcomes) is Matched <==> {
            &&& listing is Ok
            &&& all_satisfied(rule.files_exist, listing->Ok_0, EntryKind::File)
            &&& all_satisfied(rule.dirs_exist, listing->Ok_0, EntryKind::Dir)
            &&& forall|i: int|
                0 <= i < outcomes.len() ==> outcomes[i] == Ok::<bool, CmdErrorModel>(true)
        },
{
    lemma_checks_verdict_matched(outcomes);
}

// ---------------------------------------------------------------------
// Dry runs.
// ---------------------------------------------------------------------
/// Whether `cmd` is a verification command of one of the rules.
pub open spec fn is_check_command(rules: Seq<PatternModel>, cmd: Seq<char>) -> bool {
    exists|r: int, c: int|
        0 <= r < rules.len() && 0 <= c < rules[r].check_commands.len()
            && rules[r].check_commands[c] == cmd
}

/// Whether an action asks for nothing beyond enumeration and verification:
/// any command it runs is a verification command of one of the rules.
pub open spec fn action_is_cleanup_free(rules: Seq<PatternModel>, a: ActionModel) -> bool {
    a matches ActionModel::Run { cmd, .. } ==> is_check_command(rules, cmd)
}

/// One dry-run transition never reaches the cleaning position and never
/// asks for anything beyond enumeration and verification.
pub proof fn lemma_dry_step_no_cleanup(s: WalkerModel, e: EventModel)
    requires
        mode_wf(s),
        s.dry_run,
        s.mode !is Cleaning,
    ensures
        spec_step(s, e).0.mode !is Cleaning,
        action_is_cleanup_free(s.rules, spec_step(s, e).1),
{
    match s.mode {
        ModeModel::RuleListing { dir, rule } => {
            if s.rules[rule].check_commands.len() > 0 {
                lemma_is_check_command(s.rules, rule, 0);
            }
        },
        ModeModel::Checking { dir, rule, cmd } => {
            if cmd + 1 < s.rules[rule].check_commands.len() {
                lemma_is_check_command(s.rules, rule, cmd + 1);
            }
        },
        _ => {},
    }
}

/// The command at any position of any rule's verification list is a
/// verification command of the rules.
proof fn lemma_is_check_command(rules: Seq<PatternModel>, r: int, c: int)
    requires
        0 <= r < rules.len(),
        0 <= c < rules[r].check_commands.len(),
    ensures
        is_check_command(rules, rules[r].check_commands[c]),
{
}

/// Throughout a dry run, every action asks for enumeration or for a
/// verification command — never for a cleanup command. In particular no
/// subprocess that could modify the tree is requested on the walker's
/// behalf.
pub proof fn lemma_dry_run_issues_no_cleanup(
    s: WalkerModel,
    a: ActionModel,
    env: Env,
    fuel: nat,
)
    requires
        mode_wf(s),
        s.dry_run,
        s.mode !is Cleaning,
        action_is_cleanup_free(s.rules, a),
    ensures
        forall|i: int|
            0 <= i < run_actions(s, a, env, fuel).len() ==> action_is_cleanup_free(
                s.rules,
                #[trigger] run_actions(s, a, env, fuel)[i],
            ),
    decreases fuel,
{
    if fuel == 0 || a is Done {
    } else {
        let e = respond(env, a);
        let (s2, a2) = spec_step(s, e);
        lemma_step_invariants(s, e);
        lemma_dry_step_no_cleanup(s, e);
        lemma_dry_run_issues_no_cleanup(s2, a2, env, (fuel - 1) as nat);
        let acts = run_actions(s, a, env, fuel);
        let rest = run_actions(s2, a2, env, (fuel - 1) as nat);
        assert forall|i: int| 0 <= i < acts.len() implies action_is_cleanup_free(
            s.rules,
            #[trigger] acts[i],
        ) by {
            if i == 0 {
                assert(acts[0] == a);
            } else {
                assert(acts[i] == rest[i - 1]);
            }
        }
    }
}

/// Whether two environments cannot be told apart without running a cleanup
/// command: the same tree, and the same status for every verification
/// command of the rules. What they answer for cleanup commands may differ
/// arbitrarily — a dry run never asks.
pub open spec fn agree_on_checks(rules: Seq<PatternModel>, env1: Env, env2: Env) -> bool {
    &&& env1.listings == env2.listings
    &&& forall|dir: Seq<char>, cmd: Seq<char>|
        is_check_command(rules, cmd) ==> #[trigger] env1.statuses[(dir, cmd)]
            == env2.statuses[(dir, cmd)]
}

/// A dry run cannot observe anything beyond the listings and the
/// verification commands: under two environments that agree on those, it
/// takes identical steps throughout.
proof fn lemma_dry_run_env_insensitive(
    s: WalkerModel,
    a: ActionModel,
    env1: Env,
    env2: Env,
    fuel: nat,
)
    requires
        mode_wf(s),
        s.dry_run,
        s.mode !is Cleaning,
        action_is_cleanup_free(s.rules, a),
        agree_on_checks(s.rules, env1, env2),
    ensures
        run(s, a, env1, fuel) == run(s, a, env2, fuel),
    decreases fuel,
{
    if fuel == 0 || a is Done {
    } else {
        let e = respond(env1, a);
        lemma_dry_step_no_cleanup(s, e);
        lemma_step_invariants(s, e);
        assert(respond(env1, a) == respond(env2, a));
        let (s2, a2) = spec_step(s, e);
        lemma_dry_run_env_insensitive(s2, a2, env1, env2, (fuel - 1) as nat);
    }
}

/// Idempotence of dry runs. A run of the walker is a mathematical function
/// of the rules, the root and the environment — the transitions are pinned
/// to specification functions — and a dry run consults only the listings
/// and the verification commands, never a cleanup command
/// ([`lemma_dry_run_issues_no_cleanup`]). So two dry traversals of an
/// unmodified tree produce identical reports, even under a second
/// environment that differs wherever only a cleanup command would have
/// looked.
pub proof fn lemma_dry_run_idempotent(
    rules: Seq<PatternModel>,
    root: Seq<char>,
    env1: Env,
    env2: Env,
    fuel: nat,
)
    requires
        agree_on_checks(rules, env1, env2),
    ensures
        ({
            let start = spec_new(rules, root, true);
            let first = run(start.0, start.1, env1, fuel);
            let second = run(start.0, start.1, env2, fuel);
            first.0.reports == second.0.reports && first.0.visited == second.0.visited
        }),
{
    let (s0, a0) = spec_new(rules, root, true);
    assert(s0.rules == rules);
    lemma_dry_run_env_insensitive(s0, a0, env1, env2, fuel);
}

/// From its very start, a dry traversal asks only for listings and
/// verification commands: no cleanup command is ever handed to the caller.
pub proof fn lemma_dry_traversal_issues_no_cleanup(
    rules: Seq<PatternModel>,
    root: Seq<char>,
    env: Env,
    fuel: nat,
)
    ensures
        ({
            let start = spec_new(rules, root, true);
            forall|i: int|
                0 <= i < run_actions(start.0, start.1, env, fuel).len()
                    ==> action_is_cleanup_free(
                    rules,
                    #[trigger] run_actions(start.0, start.1, env, fuel)[i],
                )
        }),
{
    let (s0, a0) = spec_new(rules, root, true);
    assert(s0.rules == rules);
    lemma_dry_run_issues_no_cleanup(s0, a0, env, fuel);
}

// ---------------------------------------------------------------------
// The run's counters.
// ---------------------------------------------------------------------
/// Pushing one report moves each counter by at most one.
proof fn lemma_count_push(rs: Seq<ReportModel>, r: ReportModel)
    ensures
        count_matched(rs.push(r)) == count_matched(rs) + if r is Matched {
            1nat
        } else {
            0nat
        },
        count_cleaned(rs.push(r)) == count_cleaned(rs) + if r is Cleaned {
            1nat
        } else {
            0nat
        },
{
    assert(rs.push(r).drop_last() =~= rs);
}

/// The counter invariant the walker maintains: completed cleanups never
/// outnumber matches, counting the match whose cleanup is still in flight.
pub open spec fn counters_ok(s: WalkerModel) -> bool {
    count_cleaned(s.reports) + (if s.mode is Cleaning {
        1nat
    } else {
        0nat
    }) <= count_matched(s.reports)
}

/// Every transition preserves the counter invariant: a completed cleanup is
/// only ever reported for a directory and rule whose match was reported
/// first.
proof fn lemma_step_counters(s: WalkerModel, e: EventModel)
    requires
        mode_wf(s),
        counters_ok(s),
    ensures
        counters_ok(spec_step(s, e).0),
{
    match s.mode {
        ModeModel::RuleListing { dir, rule } => {
            if e is Listing {
                match e->Listing_0 {
                    Result::Err(msg) => {
                        lemma_count_push(
                            s.reports,
                            ReportModel::MatchError {
                                dir,
                                rule: s.rules[rule].name,
                                cause: CauseModel::Io(msg),
                            },
                        );
                    },
                    Result::Ok(entries) => {
                        lemma_record_matched_counters(s, dir, rule);
                    },
                }
            }
        },
        ModeModel::ChildListing { dir } => {
            if e is Listing {
                match e->Listing_0 {
                    Result::Err(msg) => {
                        lemma_count_push(
                            s.reports,
                            ReportModel::ListFailed { dir, cause: CauseModel::Io(msg) },
                        );
                    },
                    Result::Ok(entries) => {},
                }
            }
        },
        ModeModel::Checking { dir, rule, cmd } => {
            if e is Status {
                match spec_interpret(e->Status_0) {
                    Result::Err(err) => {
                        lemma_count_push(
                            s.reports,
                            ReportModel::MatchError {
                                dir,
                                rule: s.rules[rule].name,
                                cause: spec_cause_of(err),
                            },
                        );
                    },
                    Result::Ok(passed) => {
                        lemma_record_matched_counters(s, dir, rule);
                    },
                }
            }
        },
        ModeModel::Cleaning { dir, rule, cmd } => {
            if e is Status {
                match spec_interpret(e->Status_0) {
                    Result::Err(err) => {
                        lemma_count_push(
                            s.reports,
                            ReportModel::CleanFailed {
                                dir,
                                rule: s.rules[rule].name,
                                cause: spec_cause_of(err),
                            },
                        );
                    },
                    Result::Ok(passed) => {
                        lemma_count_push(
                            s.reports,
                            ReportModel::CleanFailed {
                                dir,
                                rule: s.rules[rule].name,
                                cause: CauseModel::NonZeroExit,
                            },
                        );
                        lemma_count_push(
                            s.reports,
                            ReportModel::Cleaned { dir, rule: s.rules[rule].name },
                        );
                    },
                }
            }
        },
        ModeModel::Finished => {},
    }
}

/// Recording a match preserves the counter invariant, whether the cleanup
/// is suppressed, trivial, or about to start.
proof fn lemma_record_matched_counters(s: WalkerModel, dir: Seq<char>, r: int)
    requires
        0 <= r < s.rules.len(),
        counters_ok(s),
    ensures
        counters_ok(crate::walker::spec_record_matched(s, dir, r).0),
{
    let rule = s.rules[r];
    let with_match = s.reports.push(ReportModel::Matched { dir, rule: rule.name });
    lemma_count_push(s.reports, ReportModel::Matched { dir, rule: rule.name });
    lemma_count_push(with_match, ReportModel::Cleaned { dir, rule: rule.name });
}

/// Along any run from a state that satisfies the counter invariant — the
/// start in particular — the reports never hold more completed cleanups
/// than matches: the final `cleaned/matched` summary is well-formed.
pub proof fn lemma_run_cleaned_le_matched(s: WalkerModel, a: ActionModel, env: Env, fuel: nat)
    requires
        mode_wf(s),
        counters_ok(s),
    ensures
        count_cleaned(run(s, a, env, fuel).0.reports) <= count_matched(
            run(s, a, env, fuel).0.reports,
        ),
    decreases fuel,
{
    if fuel == 0 || a is Done {
    } else {
        let e = respond(env, a);
        let (s2, a2) = spec_step(s, e);
        lemma_step_invariants(s, e);
        lemma_step_counters(s, e);
        lemma_run_cleaned_le_matched(s2, a2, env, (fuel - 1) as nat);
    }
}

/// From the walker's start the counter invariant holds outright: no
/// traversal reports more completed cleanups than matches.
pub proof fn lemma_traversal_cleaned_le_matched(
    rules: Seq<PatternModel>,
    root: Seq<char>,
    dry_run: bool,
    env: Env,
    fuel: nat,
)
    ensures
        ({
            let start = spec_new(rules, root, dry_run);
            let reports = run(start.0, start.1, env, fuel).0.reports;
            count_cleaned(reports) <= count_matched(reports)
        }),
{
    let (s0, a0) = spec_new(rules, root, dry_run);
    lemma_run_cleaned_le_matched(s0, a0, env, fuel);
}

// ---------------------------------------------------------------------
// Fault isolation, step by step.
// ---------------------------------------------------------------------
/// A directory whose enumeration fails while a rule is being classified
/// does not derail anything: the error is reported against that rule, rule
/// processing for that directory alone ends, the frontier — the siblings
/// and every other pending directory — is untouched, and the walker goes
/// straight on to enumerating the directory's children.
pub proof fn lemma_fault_isolation_classifying(s: WalkerModel, dir: Seq<char>, rule: int, e: Seq<char>)
    requires
        mode_wf(s),
        s.mode == (ModeModel::RuleListing { dir, rule }),
    ensures
        ({
            let (s2, a2) = spec_on_listing(s, Err(e));
            &&& s2.stack == s.stack
            &&& s2.visited == s.visited
            &&& s2.reports == s.reports.push(
                ReportModel::MatchError {
                    dir,
                    rule: s.rules[rule].name,
                    cause: CauseModel::Io(e),
                },
            )
            &&& s2.mode == (ModeModel::ChildListing { dir })
            &&& a2 == (ActionModel::List { dir })
        }),
{
}

/// A directory whose enumeration fails while its children are being
/// collected is likewise tolerated: the failure is reported, no child is
/// pushed, and the traversal continues with the rest of the frontier
/// exactly as it would had the directory been empty.
pub proof fn lemma_fault_isolation_enumerating(s: WalkerModel, dir: Seq<char>, e: Seq<char>)
    requires
        mode_wf(s),
        s.mode == (ModeModel::ChildListing { dir }),
    ensures
        ({
            let reported = WalkerModel {
                reports: s.reports.push(ReportModel::ListFailed { dir, cause: CauseModel::Io(e) }),
                ..s
            };
            spec_on_listing(s, Err(e)) == spec_next_dir(reported)
        }),
{
}

// ---------------------------------------------------------------------
// Traversal completeness over a modelled tree.
// ---------------------------------------------------------------------
/// A directory tree as the traversal sees it: whether enumerating the
/// directory succeeds, its entries that are not subdirectories, and its
/// subdirectories by name.
pub ghost struct DirNode {
    pub readable: bool,
    pub plain_entries: Seq<EntryModel>,
    pub subdirs: Seq<(Seq<char>, DirNode)>,
}

/// The listing of a readable node: its plain entries, then its
/// subdirectories, each as an entry of directory kind.
pub open spec fn entries_of(n: DirNode) -> Seq<EntryModel> {
    n.plain_entries + n.subdirs.map_values(
        |p: (Seq<char>, DirNode)| EntryModel { name: p.0, kind: EntryKind::Dir },
    )
}

/// Whether the environment answers every listing under `path` as the tree
/// `n` prescribes: the node's own listing (an error exactly when the node
/// is unreadable), recursively the listings of its subdirectories; and no
/// plain entry of the tree poses as a directory.
pub open spec fn env_models(env: Env, path: Seq<char>, n: DirNode) -> bool
    decreases n,
{
    &&& n.readable ==> env.listings[path] == Ok::<Seq<EntryModel>, Seq<char>>(entries_of(n))
    &&& !n.readable ==> env.listings[path] is Err
    &&& forall|i: int|
        0 <= i < n.plain_entries.len() ==> (#[trigger] n.plain_entries[i]).kind !is Dir
    &&& forall|i: int|
        0 <= i < n.subdirs.len() ==> env_models(
            env,
            child_path(path, (#[trigger] n.subdirs[i]).0),
            n.subdirs[i].1,
        )
}

/// The number of directories in the tree.
pub open spec fn tree_size(n: DirNode) -> nat
    decreases n, n.subdirs.len() + 1,
{
    1 + prefix_size(n, n.subdirs.len() as int)
}

/// The number of directories in the first `k` subtrees of `n`.
pub open spec fn prefix_size(n: DirNode, k: int) -> nat
    decreases n, k,
{
    if k <= 0 || k > n.subdirs.len() {
        0
    } else {
        prefix_size(n, k - 1) + tree_size(n.subdirs[k - 1].1)
    }
}

/// The paths the traversal can reach in the subtree at `path`: the
/// directory itself always, and, when it is readable, whatever is reachable
/// in each of its subdirectories. Nothing below an unreadable directory can
/// be reached.
pub open spec fn reachable_dirs(path: Seq<char>, n: DirNode) -> Seq<Seq<char>>
    decreases n, n.subdirs.len() + 1,
{
    seq![path] + children_reach(path, n)
}

/// What is reachable strictly below the directory at `path`.
pub open spec fn children_reach(path: Seq<char>, n: DirNode) -> Seq<Seq<char>>
    decreases n, n.subdirs.len(),
{
    if n.readable {
        reachable_prefix(path, n, n.subdirs.len() as int)
    } else {
        Seq::empty()
    }
}

/// What is reachable in the first `k` subdirectories of `n`.
pub open spec fn reachable_prefix(path: Seq<char>, n: DirNode, k: int) -> Seq<Seq<char>>
    decreases n, k, 0int,
{
    if k <= 0 || k > n.subdirs.len() {
        Seq::empty()
    } else {
        reachable_prefix(path, n, k - 1) + reachable_dirs(
            child_path(path, n.subdirs[k - 1].0),
            n.subdirs[k - 1].1,
        )
    }
}

/// The frontier entries for the subdirectories of `n`: each subdirectory's
/// path with the subtree behind it, in listing order.
pub open spec fn children_pending(path: Seq<char>, n: DirNode) -> Seq<(Seq<char>, DirNode)> {
    n.subdirs.map_values(|p: (Seq<char>, DirNode)| (child_path(path, p.0), p.1))
}

/// The paths of a frontier.
pub open spec fn pending_paths(pending: Seq<(Seq<char>, DirNode)>) -> Seq<Seq<char>> {
    pending.map_values(|p: (Seq<char>, DirNode)| p.0)
}

/// The number of directories in all the subtrees of a frontier.
pub open spec fn pending_size(pending: Seq<(Seq<char>, DirNode)>) -> nat
    decreases pending.len(),
{
    if pending.len() == 0 {
        0
    } else {
        pending_size(pending.drop_last()) + tree_size(pending.last().1)
    }
}

/// The paths reachable through a frontier.
pub open spec fn pending_reachable(pending: Seq<(Seq<char>, DirNode)>) -> Seq<Seq<char>>
    decreases pending.len(),
{
    if pending.len() == 0 {
        Seq::empty()
    } else {
        pending_reachable(pending.drop_last()) + reachable_dirs(
            pending.last().0,
            pending.last().1,
        )
    }
}

/// The subdirectory paths of a concatenated listing, in two parts.
proof fn lemma_subdir_paths_concat(dir: Seq<char>, a: Seq<EntryModel>, b: Seq<EntryModel>)
    ensures
        subdir_paths(dir, a + b) == subdir_paths(dir, a) + subdir_paths(dir, b),
    decreases b.len(),
{
    if b.len() == 0 {
        assert(a + b =~= a);
        assert(subdir_paths(dir, a) + subdir_paths(dir, b) =~= subdir_paths(dir, a));
    } else {
        lemma_subdir_paths_concat(dir, a, b.drop_last());
        assert((a + b).drop_last() =~= a + b.drop_last());
        assert((a + b).last() == b.last());
        if b.last().kind is Dir {
            assert(subdir_paths(dir, a) + subdir_paths(dir, b) =~= (subdir_paths(dir, a)
                + subdir_paths(dir, b.drop_last())).push(child_path(dir, b.last().name)));
        }
    }
}

/// A listing without directory entries contributes no subdirectory paths.
proof fn lemma_subdir_paths_no_dirs(dir: Seq<char>, s: Seq<EntryModel>)
    requires
        forall|i: int| 0 <= i < s.len() ==> (#[trigger] s[i]).kind !is Dir,
    ensures
        subdir_paths(dir, s) == Seq::<Seq<char>>::empty(),
    decreases s.len(),
{
    if s.len() > 0 {
        lemma_subdir_paths_no_dirs(dir, s.drop_last());
    }
}

/// The subdirectory paths of the mapped subdirectory entries are exactly
/// the frontier paths of the children.
proof fn lemma_subdir_paths_mapped(path: Seq<char>, sd: Seq<(Seq<char>, DirNode)>)
    ensures
        subdir_paths(
            path,
            sd.map_values(|p: (Seq<char>, DirNode)| EntryModel { name: p.0, kind: EntryKind::Dir }),
        ) == sd.map_values(|p: (Seq<char>, DirNode)| child_path(path, p.0)),
    decreases sd.len(),
{
    let to_entry = |p: (Seq<char>, DirNode)| EntryModel { name: p.0, kind: EntryKind::Dir };
    let to_path = |p: (Seq<char>, DirNode)| child_path(path, p.0);
    if sd.len() == 0 {
        assert(sd.map_values(to_path) =~= Seq::<Seq<char>>::empty());
        assert(sd.map_values(to_entry) =~= Seq::<EntryModel>::empty());
    } else {
        lemma_subdir_paths_mapped(path, sd.drop_last());
        assert(sd.map_values(to_entry).drop_last() =~= sd.drop_last().map_values(to_entry));
        assert(sd.map_values(to_entry).last() == to_entry(sd.last()));
        assert(sd.map_values(to_entry).len() == sd.len());
        assert(sd.map_values(to_path) =~= sd.drop_last().map_values(to_path).push(
            child_path(path, sd.last().0),
        ));
    }
}

/// What the walker pushes after listing a readable directory is exactly the
/// frontier of that directory's children.
proof fn lemma_subdir_paths_of_entries(path: Seq<char>, n: DirNode)
    requires
        forall|i: int|
            0 <= i < n.plain_entries.len() ==> (#[trigger] n.plain_entries[i]).kind !is Dir,
    ensures
        subdir_paths(path, entries_of(n)) == pending_paths(children_pending(path, n)),
{
    let to_entry = |p: (Seq<char>, DirNode)| EntryModel { name: p.0, kind: EntryKind::Dir };
    lemma_subdir_paths_concat(path, n.plain_entries, n.subdirs.map_values(to_entry));
    lemma_subdir_paths_no_dirs(path, n.plain_entries);
    lemma_subdir_paths_mapped(path, n.subdirs);
    assert(Seq::<Seq<char>>::empty() + subdir_paths(path, n.subdirs.map_values(to_entry))
        =~= subdir_paths(path, n.subdirs.map_values(to_entry)));
    assert(pending_paths(children_pending(path, n)) =~= n.subdirs.map_values(
        |p: (Seq<char>, DirNode)| child_path(path, p.0),
    ));
}

/// Frontier bookkeeping distributes over concatenation.
proof fn lemma_pending_concat(a: Seq<(Seq<char>, DirNode)>, b: Seq<(Seq<char>, DirNode)>)
    ensures
        pending_size(a + b) == pending_size(a) + pending_size(b),
        pending_reachable(a + b) == pending_reachable(a) + pending_reachable(b),
        pending_paths(a + b) == pending_paths(a) + pending_paths(b),
    decreases b.len(),
{
    assert(pending_paths(a + b) =~= pending_paths(a) + pending_paths(b));
    if b.len() == 0 {
        assert(a + b =~= a);
        assert(pending_reachable(a) + pending_reachable(b) =~= pending_reachable(a));
    } else {
        lemma_pending_concat(a, b.drop_last());
        assert((a + b).drop_last() =~= a + b.drop_last());
        assert((a + b).last() == b.last());
        assert(pending_reachable(a) + pending_reachable(b) =~= (pending_reachable(a)
            + pending_reachable(b.drop_last())) + reachable_dirs(b.last().0, b.last().1));
    }
}

/// The frontier of a readable directory's children carries exactly the
/// directories of its subtrees and exactly the paths reachable strictly
/// below it.
proof fn lemma_children_pending_measures(path: Seq<char>, n: DirNode, k: int)
    requires
        0 <= k <= n.subdirs.len(),
    ensures
        pending_size(children_pending(path, n).take(k)) == prefix_size(n, k),
        pending_reachable(children_pending(path, n).take(k)) == reachable_prefix(path, n, k),
    decreases k,
{
    let cp = children_pending(path, n);
    if k > 0 {
        lemma_children_pending_measures(path, n, k - 1);
        assert(cp.take(k).drop_last() =~= cp.take(k - 1));
        assert(cp.take(k).last() == cp[k - 1]);
        assert(cp[k - 1] == (child_path(path, n.subdirs[k - 1].0), n.subdirs[k - 1].1));
    }
}

/// The same, for the whole child list.
proof fn lemma_children_pending_full(path: Seq<char>, n: DirNode)
    requires
        n.readable,
    ensures
        pending_size(children_pending(path, n)) + 1 == tree_size(n),
        pending_reachable(children_pending(path, n)) == children_reach(path, n),
{
    let cp = children_pending(path, n);
    lemma_children_pending_measures(path, n, n.subdirs.len() as int);
    assert(cp.take(n.subdirs.len() as int) =~= cp);
}

/// One step of a run with one unit of fuel.
proof fn lemma_run_one(s: WalkerModel, a: ActionModel, env: Env)
    requires
        a !is Done,
    ensures
        run(s, a, env, 1) == spec_step(s, respond(env, a)),
{
    let (s2, a2) = spec_step(s, respond(env, a));
    assert(run(s2, a2, env, 0) == (s2, a2));
}

/// The action the walker has just handed out, at each waiting position.
pub open spec fn pending_action(s: WalkerModel) -> ActionModel {
    match s.mode {
        ModeModel::RuleListing { dir, .. } => ActionModel::List { dir },
        ModeModel::ChildListing { dir } => ActionModel::List { dir },
        ModeModel::Checking { dir, rule, cmd } => ActionModel::Run {
            cmd: s.rules[rule].check_commands[cmd],
            dir,
        },
        ModeModel::Cleaning { dir, rule, cmd } => ActionModel::Run {
            cmd: s.rules[rule].clean_commands[cmd],
            dir,
        },
        ModeModel::Finished => ActionModel::Done,
    }
}

/// The outcome of one directory's rule-processing block: the reports may
/// have grown, everything else is untouched, and the walker stands at the
/// directory's children listing.
pub open spec fn rules_done(s0: WalkerModel, dir: Seq<char>, out: (WalkerModel, ActionModel)) -> bool {
    &&& out.0 == (WalkerModel {
        reports: out.0.reports,
        mode: ModeModel::ChildListing { dir },
        ..s0
    })
    &&& out.1 == (ActionModel::List { dir })
}

/// Processing `dir` from rule `r` onward terminates at the directory's
/// children listing, whatever the environment answers, touching nothing but
/// the reports: no listing error, command failure or command error derails
/// the traversal.
proof fn lemma_rules_phase(s: WalkerModel, env: Env, dir: Seq<char>, r: int) -> (fuel: nat)
    requires
        mode_wf(s),
        s.mode == (ModeModel::RuleListing { dir, rule: r }),
    ensures
        rules_done(s, dir, run(s, pending_action(s), env, fuel)),
    decreases s.rules.len() - r, 3int, 0int,
{
    let a = pending_action(s);
    let e = respond(env, a);
    let (s1, a1) = spec_step(s, e);
    lemma_run_one(s, a, env);
    match env.listings[dir] {
        Result::Err(msg) => 1,
        Result::Ok(entries) => {
            if structural_match(s.rules[r], entries) {
                if s.rules[r].check_commands.len() > 0 {
                    let f = lemma_checks_phase(s1, env, dir, r, 0);
                    lemma_run_splits(s, a, env, 1, f);
                    1 + f
                } else {
                    let f = lemma_match_phase(s, env, dir, r);
                    lemma_run_splits(s, a, env, 1, f);
                    1 + f
                }
            } else {
                if r + 1 < s.rules.len() {
                    let f = lemma_rules_phase(s1, env, dir, r + 1);
                    lemma_run_splits(s, a, env, 1, f);
                    1 + f
                } else {
                    1
                }
            }
        },
    }
}

/// Running the verification commands of rule `r` from index `c` onward
/// terminates at the directory's children listing.
proof fn lemma_checks_phase(s: WalkerModel, env: Env, dir: Seq<char>, r: int, c: int) -> (fuel:
    nat)
    requires
        mode_wf(s),
        s.mode == (ModeModel::Checking { dir, rule: r, cmd: c }),
    ensures
        rules_done(s, dir, run(s, pending_action(s), env, fuel)),
    decreases s.rules.len() - r, 2int, s.rules[r].check_commands.len() - c,
{
    let a = pending_action(s);
    let e = respond(env, a);
    let (s1, a1) = spec_step(s, e);
    lemma_run_one(s, a, env);
    let raw = env.statuses[(dir, s.rules[r].check_commands[c])];
    match spec_interpret(raw) {
        Result::Err(err) => 1,
        Result::Ok(passed) => {
            if !passed {
                if r + 1 < s.rules.len() {
                    let f = lemma_rules_phase(s1, env, dir, r + 1);
                    lemma_run_splits(s, a, env, 1, f);
                    1 + f
                } else {
                    1
                }
            } else if c + 1 < s.rules[r].check_commands.len() {
                let f = lemma_checks_phase(s1, env, dir, r, c + 1);
                lemma_run_splits(s, a, env, 1, f);
                1 + f
            } else {
                let f = lemma_match_phase(s, env, dir, r);
                lemma_run_splits(s, a, env, 1, f);
                1 + f
            }
        },
    }
}

/// After a match is recorded for rule `r`, the walker — cleaning or not —
/// terminates at the directory's children listing.
proof fn lemma_match_phase(s: WalkerModel, env: Env, dir: Seq<char>, r: int) -> (fuel: nat)
    requires
        0 <= r < s.rules.len(),
    ensures
        ({
            let (s1, a1) = crate::walker::spec_record_matched(s, dir, r);
            rules_done(s, dir, run(s1, a1, env, fuel))
        }),
    decreases s.rules.len() - r, 1int, 0int,
{
    let (s1, a1) = crate::walker::spec_record_matched(s, dir, r);
    if s.dry_run || s.rules[r].clean_commands.len() == 0 {
        if r + 1 < s.rules.len() {
            lemma_rules_phase(s1, env, dir, r + 1)
        } else {
            0
        }
    } else {
        lemma_cleans_phase(s1, env, dir, r, 0)
    }
}

/// Running the cleanup commands of rule `r` from index `c` onward
/// terminates at the directory's children listing.
proof fn lemma_cleans_phase(s: WalkerModel, env: Env, dir: Seq<char>, r: int, c: int) -> (fuel:
    nat)
    requires
        mode_wf(s),
        s.mode == (ModeModel::Cleaning { dir, rule: r, cmd: c }),
    ensures
        rules_done(s, dir, run(s, pending_action(s), env, fuel)),
    decreases s.rules.len() - r, 0int, s.rules[r].clean_commands.len() - c,
{
    let a = pending_action(s);
    let e = respond(env, a);
    let (s1, a1) = spec_step(s, e);
    lemma_run_one(s, a, env);
    let raw = env.statuses[(dir, s.rules[r].clean_commands[c])];
    if spec_interpret(raw) == Ok::<bool, CmdErrorModel>(true) && c + 1 < s.rules[
        r
    ].clean_commands.len() {
        let f = lemma_cleans_phase(s1, env, dir, r, c + 1);
        lemma_run_splits(s, a, env, 1, f);
        1 + f
    } else {
        if r + 1 < s.rules.len() {
            let f = lemma_rules_phase(s1, env, dir, r + 1);
            lemma_run_splits(s, a, env, 1, f);
            1 + f
        } else {
            1
        }
    }
}


/// The walker stands at the start of `dir`'s processing: the directory was
/// just popped (and recorded as visited) and rule processing is about to
/// begin — or, with no rules configured, its children listing.
pub open spec fn at_dir_start(s: WalkerModel, dir: Seq<char>) -> bool {
    if s.rules.len() > 0 {
        s.mode == (ModeModel::RuleListing { dir, rule: 0 })
    } else {
        s.mode == (ModeModel::ChildListing { dir })
    }
}

/// The traversal from the start of one directory, with a frontier of
/// pending directories behind it, runs to completion; the multiset of
/// visited directories grows by exactly what is reachable below the current
/// directory and through the frontier.
#[verifier::rlimit(50)]
proof fn lemma_run_frontier(
    s: WalkerModel,
    env: Env,
    dir: Seq<char>,
    node: DirNode,
    pending: Seq<(Seq<char>, DirNode)>,
) -> (fuel: nat)
    requires
        mode_wf(s),
        at_dir_start(s, dir),
        env_models(env, dir, node),
        s.stack == pending_paths(pending),
        forall|i: int|
            0 <= i < pending.len() ==> env_models(env, (#[trigger] pending[i]).0, pending[i].1),
    ensures
        ({
            let (sf, af) = run(s, pending_action(s), env, fuel);
            &&& af is Done
            &&& sf.mode is Finished
            &&& sf.visited.to_multiset() == s.visited.to_multiset().add(
                children_reach(dir, node).to_multiset(),
            ).add(pending_reachable(pending).to_multiset())
        }),
    decreases tree_size(node) + pending_size(pending),
{
    broadcast use vstd::seq_lib::group_to_multiset_ensures;
    broadcast use vstd::multiset::group_multiset_axioms;

    let a0 = pending_action(s);
    let f1: nat = if s.rules.len() > 0 {
        lemma_rules_phase(s, env, dir, 0)
    } else {
        0
    };
    let (s2, a2) = run(s, a0, env, f1);
    if s.rules.len() == 0 {
        assert(run(s, a0, env, 0) == (s, a0));
    }
    assert(rules_done(s, dir, (s2, a2)));
    let e = respond(env, a2);
    let (s3, a3) = spec_step(s2, e);
    lemma_run_one(s2, a2, env);
    let children = children_pending(dir, node);
    let pending2: Seq<(Seq<char>, DirNode)> = if node.readable {
        pending + children
    } else {
        pending
    };
    if node.readable {
        lemma_subdir_paths_of_entries(dir, node);
        lemma_pending_concat(pending, children);
        lemma_children_pending_full(dir, node);
        assert(s2.stack + subdir_paths(dir, entries_of(node)) == pending_paths(pending2));
    } else {
        assert(children_reach(dir, node).to_multiset() =~= Multiset::<Seq<char>>::empty());
    }
    assert forall|i: int| 0 <= i < pending2.len() implies env_models(
        env,
        (#[trigger] pending2[i]).0,
        pending2[i].1,
    ) by {
        if i < pending.len() {
            assert(pending2[i] == pending[i]);
        } else {
            let j = i - pending.len();
            assert(pending2[i] == children[j]);
            assert(children[j] == (child_path(dir, node.subdirs[j].0), node.subdirs[j].1));
            assert(env_models(env, child_path(dir, node.subdirs[j].0), node.subdirs[j].1));
        }
    }
    if pending2.len() > 0 {
        let dir2 = pending2.last().0;
        let node2 = pending2.last().1;
        assert(pending_paths(pending2).last() == dir2);
        assert(pending_paths(pending2).drop_last() =~= pending_paths(pending2.drop_last()));
        assert(s3.stack == pending_paths(pending2.drop_last()));
        assert(s3.visited == s.visited.push(dir2));
        assert(at_dir_start(s3, dir2));
        assert(a3 == pending_action(s3));
        assert(pending_size(pending2.drop_last()) + tree_size(node2) == pending_size(pending2));
        assert(tree_size(node2) + pending_size(pending2.drop_last()) < tree_size(node)
            + pending_size(pending));
        let f2 = lemma_run_frontier(s3, env, dir2, node2, pending2.drop_last());
        lemma_run_splits(s2, a2, env, 1, f2);
        lemma_run_splits(s, a0, env, f1, 1 + f2);
        let (sf, af) = run(s3, a3, env, f2);
        assert(reachable_dirs(dir2, node2) == seq![dir2] + children_reach(dir2, node2));
        vstd::seq_lib::lemma_multiset_commutative(seq![dir2], children_reach(dir2, node2));
        vstd::seq_lib::lemma_multiset_commutative(
            pending_reachable(pending2.drop_last()),
            reachable_dirs(dir2, node2),
        );
        if node.readable {
            vstd::seq_lib::lemma_multiset_commutative(
                pending_reachable(pending),
                pending_reachable(children),
            );
        }
        let svm = s.visited.to_multiset();
        let cr2 = children_reach(dir2, node2).to_multiset();
        let prd = pending_reachable(pending2.drop_last()).to_multiset();
        let crm = children_reach(dir, node).to_multiset();
        let prm = pending_reachable(pending).to_multiset();
        let rd2 = reachable_dirs(dir2, node2).to_multiset();
        let pr2 = pending_reachable(pending2).to_multiset();
        assert(seq![dir2].to_multiset() =~= Multiset::<Seq<char>>::empty().insert(dir2));
        assert(s.visited.push(dir2).to_multiset() =~= svm.insert(dir2));
        assert(sf.visited.to_multiset() == svm.insert(dir2).add(cr2).add(prd));
        assert(rd2 == Multiset::<Seq<char>>::empty().insert(dir2).add(cr2));
        assert(pr2 == prd.add(rd2));
        if node.readable {
            assert(pr2 == prm.add(crm));
        } else {
            assert(pending2 == pending);
            assert(crm =~= Multiset::<Seq<char>>::empty());
            assert(pr2 =~= prm.add(crm));
        }
        assert forall|x: Seq<char>|
            #[trigger] sf.visited.to_multiset().count(x) == svm.add(crm).add(prm).count(x) by {
            assert(sf.visited.to_multiset().count(x) == svm.insert(dir2).add(cr2).add(prd).count(
                x,
            ));
            assert(pr2.count(x) == prd.count(x) + rd2.count(x));
            assert(rd2.count(x) == Multiset::<Seq<char>>::empty().insert(dir2).count(x) + cr2.count(
                x,
            ));
            assert(pr2.count(x) == prm.count(x) + crm.count(x));
        }
        assert(sf.visited.to_multiset() =~= svm.add(crm).add(prm));
        assert(run(s, a0, env, f1 + (1 + f2)) == (sf, af));
        f1 + 1 + f2
    } else {
        lemma_run_splits(s, a0, env, f1, 1);
        assert(s3.mode is Finished);
        assert(a3 is Done);
        assert(s3.visited == s.visited);
        if node.readable {
            assert(children.len() == 0);
            assert(pending_reachable(children).to_multiset() =~= Multiset::<Seq<char>>::empty());
        }
        assert(pending.len() == 0);
        assert(pending_reachable(pending).to_multiset() =~= Multiset::<Seq<char>>::empty());
        assert(s3.visited.to_multiset() =~= s.visited.to_multiset().add(
            children_reach(dir, node).to_multiset(),
        ).add(pending_reachable(pending).to_multiset()));
        f1 + 1
    }
}


/// Traversal completeness and fault isolation over a whole tree. Starting
/// from the root, the traversal runs to completion whatever the rules, the
/// flags and the command outcomes, and the multiset of directories it
/// visits is exactly the multiset of paths reachable from the root — where
/// a directory is reachable when every directory strictly above it is
/// readable; non-directories and entries of other kinds (symlinks among
/// them) are never followed. An unreadable directory is itself still
/// visited and reported, but costs the traversal only its own descendants:
/// siblings and the rest of the tree are all visited. When the reachable
/// paths are pairwise distinct — as on a real filesystem — every reachable
/// directory is visited exactly once.
pub proof fn lemma_traversal_completeness(
    rules: Seq<PatternModel>,
    root: Seq<char>,
    dry_run: bool,
    env: Env,
    tree: DirNode,
) -> (fuel: nat)
    requires
        env_models(env, root, tree),
    ensures
        ({
            let start = spec_new(rules, root, dry_run);
            let (sf, af) = run(start.0, start.1, env, fuel);
            &&& af is Done
            &&& sf.visited.to_multiset() == reachable_dirs(root, tree).to_multiset()
            &&& reachable_dirs(root, tree).no_duplicates() ==> sf.visited.no_duplicates()
        }),
{
    broadcast use vstd::seq_lib::group_to_multiset_ensures;
    broadcast use vstd::multiset::group_multiset_axioms;

    let (s0, a0) = spec_new(rules, root, dry_run);
    assert(seq![root].drop_last() =~= Seq::<Seq<char>>::empty());
    let none: Seq<(Seq<char>, DirNode)> = Seq::empty();
    assert(s0.stack =~= pending_paths(none));
    assert(s0.visited =~= seq![root]);
    assert(at_dir_start(s0, root));
    assert(a0 == pending_action(s0));
    let f = lemma_run_frontier(s0, env, root, tree, none);
    let (sf, af) = run(s0, a0, env, f);
    assert(pending_reachable(none).to_multiset() =~= Multiset::<Seq<char>>::empty());
    assert(seq![root].to_multiset() =~= Multiset::<Seq<char>>::empty().insert(root));
    vstd::seq_lib::lemma_multiset_commutative(seq![root], children_reach(root, tree));
    assert(reachable_dirs(root, tree) == seq![root] + children_reach(root, tree));
    assert(sf.visited.to_multiset() =~= reachable_dirs(root, tree).to_multiset());
    if reachable_dirs(root, tree).no_duplicates() {
        reachable_dirs(root, tree).lemma_multiset_has_no_duplicates();
        sf.visited.lemma_multiset_has_no_duplicates_conv();
    }
    f
}


/// The interpreted outcomes that the environment holds for the verification
/// commands of one rule in one directory, in order.
pub open spec fn check_outcomes(env: Env, dir: Seq<char>, rule: PatternModel) -> Seq<
    Result<bool, CmdErrorModel>,
> {
    Seq::new(
        rule.check_commands.len(),
        |c: int| spec_interpret(env.statuses[(dir, rule.check_commands[c])]),
    )
}

/// Running the verification commands of rule `r` from index `c` stops
/// exactly where the verdict of the remaining outcomes says: at the match
/// record, at the next rule, or — after a process-level error — at the
/// children listing with the error reported.
proof fn lemma_checks_verdict_phase(s: WalkerModel, env: Env, dir: Seq<char>, r: int, c: int) -> (fuel: nat)
    requires
        mode_wf(s),
        s.mode == (ModeModel::Checking { dir, rule: r, cmd: c }),
    ensures
        ({
            let out = run(s, pending_action(s), env, fuel);
            match checks_verdict(check_outcomes(env, dir, s.rules[r]).skip(c)) {
                MatchResult::Matched => out == crate::walker::spec_record_matched(s, dir, r),
                MatchResult::NoMatch => out == crate::walker::spec_next_rule(s, dir, r + 1),
                MatchResult::MatchError(cause) => out == crate::walker::spec_enter_children(
                    WalkerModel {
                        reports: s.reports.push(
                            ReportModel::MatchError { dir, rule: s.rules[r].name, cause },
                        ),
                        ..s
                    },
                    dir,
                ),
            }
        }),
    decreases s.rules[r].check_commands.len() - c,
{
    let a = pending_action(s);
    let (s1, a1) = spec_step(s, respond(env, a));
    lemma_run_one(s, a, env);
    let outcomes = check_outcomes(env, dir, s.rules[r]);
    let rest = outcomes.skip(c);
    assert(rest.len() == outcomes.len() - c);
    assert(rest[0] == outcomes[c]);
    let raw = env.statuses[(dir, s.rules[r].check_commands[c])];
    assert(outcomes[c] == spec_interpret(raw));
    match spec_interpret(raw) {
        Result::Err(err) => {
            assert(checks_verdict(rest) == MatchResult::MatchError(spec_cause_of(err)));
            assert(run(s, a, env, 1) == (s1, a1));
            1
        },
        Result::Ok(passed) => {
            if !passed {
                assert(checks_verdict(rest) == MatchResult::NoMatch);
                assert((s1, a1) == crate::walker::spec_next_rule(s, dir, r + 1));
                1
            } else if c + 1 < s.rules[r].check_commands.len() {
                assert(rest.drop_first() =~= outcomes.skip(c + 1));
                assert(checks_verdict(rest) == checks_verdict(outcomes.skip(c + 1)));
                let f = lemma_checks_verdict_phase(s1, env, dir, r, c + 1);
                lemma_run_splits(s, a, env, 1, f);
                assert(run(s, a, env, 1 + f) == run(s1, a1, env, f));
                assert(s1 == (WalkerModel {
                    mode: ModeModel::Checking { dir, rule: r, cmd: c + 1 },
                    ..s
                }));
                match checks_verdict(outcomes.skip(c + 1)) {
                    MatchResult::Matched => {
                        assert(crate::walker::spec_record_matched(s1, dir, r)
                            == crate::walker::spec_record_matched(s, dir, r));
                    },
                    MatchResult::NoMatch => {
                        assert(crate::walker::spec_next_rule(s1, dir, r + 1)
                            == crate::walker::spec_next_rule(s, dir, r + 1));
                    },
                    MatchResult::MatchError(cause) => {
                        assert(crate::walker::spec_enter_children(
                            WalkerModel {
                                reports: s1.reports.push(
                                    ReportModel::MatchError { dir, rule: s1.rules[r].name, cause },
                                ),
                                ..s1
                            },
                            dir,
                        ) == crate::walker::spec_enter_children(
                            WalkerModel {
                                reports: s.reports.push(
                                    ReportModel::MatchError { dir, rule: s.rules[r].name, cause },
                                ),
                                ..s
                            },
                            dir,
                        ));
                    },
                }
                1 + f
            } else {
                assert(rest.drop_first().len() == 0);
                assert(checks_verdict(rest.drop_first()) == MatchResult::Matched);
                assert(checks_verdict(rest) == MatchResult::Matched);
                assert((s1, a1) == crate::walker::spec_record_matched(s, dir, r));
                1
            }
        },
    }
}

/// The walker realises [`classify`]: processing one rule against one
/// directory stops exactly where the classification says — recording the
/// match, moving on to the next rule with nothing reported, or reporting
/// the match error and giving up on this directory's remaining rules.
/// Together with [`lemma_classify_matched_iff`] this pins when a match is
/// reported: exactly when the listing succeeded, every required pattern is
/// satisfied, and every verification command exits successfully.
pub proof fn lemma_rule_classification(s: WalkerModel, env: Env, dir: Seq<char>, r: int) -> (fuel: nat)
    requires
        mode_wf(s),
        s.mode == (ModeModel::RuleListing { dir, rule: r }),
    ensures
        ({
            let out = run(s, pending_action(s), env, fuel);
            match classify(s.rules[r], env.listings[dir], check_outcomes(env, dir, s.rules[r])) {
                MatchResult::Matched => out == crate::walker::spec_record_matched(s, dir, r),
                MatchResult::NoMatch => out == crate::walker::spec_next_rule(s, dir, r + 1),
                MatchResult::MatchError(cause) => out == crate::walker::spec_enter_children(
                    WalkerModel {
                        reports: s.reports.push(
                            ReportModel::MatchError { dir, rule: s.rules[r].name, cause },
                        ),
                        ..s
                    },
                    dir,
                ),
            }
        }),
{
    let a = pending_action(s);
    let (s1, a1) = spec_step(s, respond(env, a));
    lemma_run_one(s, a, env);
    let outcomes = check_outcomes(env, dir, s.rules[r]);
    match env.listings[dir] {
        Result::Err(msg) => 1,
        Result::Ok(entries) => {
            if structural_match(s.rules[r], entries) {
                if s.rules[r].check_commands.len() > 0 {
                    assert(outcomes.skip(0) =~= outcomes);
                    let f = lemma_checks_verdict_phase(s1, env, dir, r, 0);
                    lemma_run_splits(s, a, env, 1, f);
                    1 + f
                } else {
                    assert(outcomes.len() == 0);
                    1
                }
            } else {
                1
            }
        },
    }
}


// ---------------------------------------------------------------------
// Distinctness of reachable paths.
// ---------------------------------------------------------------------
/// Tree naming as a real filesystem guarantees it: sibling names are
/// pairwise distinct and never contain the path separator.
pub open spec fn names_wf(n: DirNode) -> bool
    decreases n,
{
    &&& forall|i: int, j: int|
        0 <= i < j < n.subdirs.len() ==> (#[trigger] n.subdirs[i]).0 != (#[trigger] n.subdirs[j]).0
    &&& forall|i: int| 0 <= i < n.subdirs.len() ==> !(#[trigger] n.subdirs[i]).0.contains('/')
    &&& forall|i: int| 0 <= i < n.subdirs.len() ==> names_wf((#[trigger] n.subdirs[i]).1)
}

/// `q` strictly extends `base`, with the separator right after it.
spec fn extends_at(base: Seq<char>, q: Seq<char>) -> bool {
    &&& q.len() > base.len()
    &&& q.take(base.len() as int) == base
    &&& q[base.len() as int] == '/'
}

/// `q` lies at or below the child of `base` named `name`.
spec fn under(base: Seq<char>, name: Seq<char>, q: Seq<char>) -> bool {
    q == child_path(base, name) || extends_at(child_path(base, name), q)
}

/// A path under a child of `base` strictly extends `base`.
proof fn lemma_under_extends(base: Seq<char>, name: Seq<char>, q: Seq<char>)
    requires
        under(base, name, q),
    ensures
        extends_at(base, q),
{
    reveal_strlit("/");
    let cp = child_path(base, name);
    assert(cp.len() == base.len() + 1 + name.len());
    assert(cp.take(base.len() as int) =~= base);
    assert(cp[base.len() as int] == '/');
    if q != cp {
        assert(q.take(cp.len() as int) == cp);
        assert(q.take(base.len() as int) =~= q.take(cp.len() as int).take(base.len() as int));
        assert(q[base.len() as int] == q.take(cp.len() as int)[base.len() as int]);
    }
}

/// Two separator-free child names with a common path at or below them are
/// the same name.
proof fn lemma_under_unique(base: Seq<char>, a: Seq<char>, b: Seq<char>, q: Seq<char>)
    requires
        !a.contains('/'),
        !b.contains('/'),
        under(base, a, q),
        under(base, b, q),
    ensures
        a == b,
{
    reveal_strlit("/");
    let pa = child_path(base, a);
    let pb = child_path(base, b);
    if a.len() == b.len() {
        assert forall|t: int| 0 <= t < a.len() implies a[t] == b[t] by {
            assert(q.len() >= pa.len());
            assert(q.len() >= pb.len());
            if q == pa {
                assert(q[base.len() + 1 + t] == a[t]);
            } else {
                assert(q.take(pa.len() as int)[base.len() + 1 + t] == a[t]);
                assert(q[base.len() + 1 + t] == a[t]);
            }
            if q == pb {
                assert(q[base.len() + 1 + t] == b[t]);
            } else {
                assert(q.take(pb.len() as int)[base.len() + 1 + t] == b[t]);
                assert(q[base.len() + 1 + t] == b[t]);
            }
        }
        assert(a =~= b);
    } else {
        let (shorter, longer, ps, pl) = if a.len() < b.len() {
            (a, b, pa, pb)
        } else {
            (b, a, pb, pa)
        };
        // The position just after the shorter name: inside the longer name.
        let m = base.len() + 1 + shorter.len();
        assert(m < pl.len());
        // q reaches at least to the end of the longer child path.
        assert(q.len() >= pl.len());
        // So q does not end at m; `under` for the shorter name then forces a
        // separator at m.
        assert(q != ps);
        assert(extends_at(ps, q));
        assert(q[m as int] == '/');
        // But within the longer name the separator cannot occur.
        let t = shorter.len() as int;
        if q == pl {
            assert(q[m as int] == longer[t]);
        } else {
            assert(q.take(pl.len() as int)[m as int] == longer[t]);
            assert(q[m as int] == longer[t]);
        }
        assert(longer.contains('/'));
        assert(false);
    }
}

/// Everything reachable below `base` through its first `k` children lies
/// under one of those children.
proof fn lemma_reach_prefix_under(base: Seq<char>, n: DirNode, k: int)
    requires
        0 <= k <= n.subdirs.len(),
    ensures
        forall|i: int|
            0 <= i < reachable_prefix(base, n, k).len() ==> exists|j: int|
                0 <= j < k && under(base, n.subdirs[j].0, #[trigger] reachable_prefix(base, n, k)[i]),
    decreases n, k,
{
    if k > 0 {
        lemma_reach_prefix_under(base, n, k - 1);
        let part = reachable_prefix(base, n, k - 1);
        let cp = child_path(base, n.subdirs[k - 1].0);
        let child = reachable_dirs(cp, n.subdirs[k - 1].1);
        lemma_reach_extends(cp, n.subdirs[k - 1].1);
        let whole = reachable_prefix(base, n, k);
        assert forall|i: int| 0 <= i < whole.len() implies exists|j: int|
            0 <= j < k && under(base, n.subdirs[j].0, #[trigger] whole[i]) by {
            if i < part.len() {
                assert(whole[i] == part[i]);
                let j = choose|j: int|
                    0 <= j < k - 1 && under(base, n.subdirs[j].0, part[i]);
                assert(0 <= j < k && under(base, n.subdirs[j].0, whole[i]));
            } else {
                let t = i - part.len();
                assert(whole[i] == child[t]);
                if t == 0 {
                    assert(child[0] == cp);
                    assert(under(base, n.subdirs[k - 1].0, whole[i]));
                } else {
                    assert(extends_at(cp, child[t]));
                    assert(under(base, n.subdirs[k - 1].0, whole[i]));
                }
                assert(0 <= k - 1 < k && under(base, n.subdirs[k - 1].0, whole[i]));
            }
        }
    }
}

/// The first reachable path is the directory itself; every other one
/// strictly extends it past a separator.
proof fn lemma_reach_extends(base: Seq<char>, n: DirNode)
    ensures
        reachable_dirs(base, n).len() >= 1,
        reachable_dirs(base, n)[0] == base,
        forall|i: int|
            1 <= i < reachable_dirs(base, n).len() ==> extends_at(
                base,
                #[trigger] reachable_dirs(base, n)[i],
            ),
    decreases n,
{
    let whole = reachable_dirs(base, n);
    if n.readable {
        lemma_reach_prefix_under(base, n, n.subdirs.len() as int);
        let rest = reachable_prefix(base, n, n.subdirs.len() as int);
        assert forall|i: int| 1 <= i < whole.len() implies extends_at(base, #[trigger] whole[i]) by {
            assert(whole[i] == rest[i - 1]);
            let j = choose|j: int|
                0 <= j < n.subdirs.len() && under(base, n.subdirs[j].0, rest[i - 1]);
            lemma_under_extends(base, n.subdirs[j].0, rest[i - 1]);
        }
    }
}

/// With well-formed naming, the paths reachable through the first `k`
/// children are pairwise distinct.
proof fn lemma_reach_prefix_no_dup(base: Seq<char>, n: DirNode, k: int)
    requires
        names_wf(n),
        0 <= k <= n.subdirs.len(),
    ensures
        reachable_prefix(base, n, k).no_duplicates(),
    decreases n, k,
{
    if k > 0 {
        lemma_reach_prefix_no_dup(base, n, k - 1);
        let part = reachable_prefix(base, n, k - 1);
        let cp = child_path(base, n.subdirs[k - 1].0);
        let child = reachable_dirs(cp, n.subdirs[k - 1].1);
        lemma_reach_no_dup(cp, n.subdirs[k - 1].1);
        lemma_reach_extends(cp, n.subdirs[k - 1].1);
        lemma_reach_prefix_under(base, n, k - 1);
        let whole = reachable_prefix(base, n, k);
        assert forall|i1: int, i2: int|
            0 <= i1 < i2 < whole.len() implies whole[i1] != whole[i2] by {
            if i2 < part.len() {
                assert(whole[i1] == part[i1] && whole[i2] == part[i2]);
            } else if i1 >= part.len() {
                assert(whole[i1] == child[i1 - part.len()] && whole[i2] == child[i2 - part.len()]);
            } else {
                // One from an earlier child, one from child k-1: they lie
                // under differently named children, so they differ.
                assert(whole[i1] == part[i1]);
                let t = i2 - part.len();
                assert(whole[i2] == child[t]);
                let j = choose|j: int|
                    0 <= j < k - 1 && under(base, n.subdirs[j].0, part[i1]);
                if t == 0 {
                    assert(under(base, n.subdirs[k - 1].0, whole[i2]));
                } else {
                    assert(extends_at(cp, child[t]));
                    assert(under(base, n.subdirs[k - 1].0, whole[i2]));
                }
                if whole[i1] == whole[i2] {
                    lemma_under_unique(
                        base,
                        n.subdirs[j].0,
                        n.subdirs[k - 1].0,
                        whole[i1],
                    );
                    assert(n.subdirs[j].0 == n.subdirs[k - 1].0);
                    assert(false);
                }
            }
        }
    }
}

/// With well-formed naming, no path is reachable twice.
proof fn lemma_reach_no_dup(base: Seq<char>, n: DirNode)
    requires
        names_wf(n),
    ensures
        reachable_dirs(base, n).no_duplicates(),
    decreases n,
{
    let whole = reachable_dirs(base, n);
    if n.readable {
        lemma_reach_prefix_no_dup(base, n, n.subdirs.len() as int);
        let rest = reachable_prefix(base, n, n.subdirs.len() as int);
        lemma_reach_extends(base, n);
        assert forall|i1: int, i2: int|
            0 <= i1 < i2 < whole.len() implies whole[i1] != whole[i2] by {
            if i1 == 0 {
                assert(extends_at(base, whole[i2]));
                assert(whole[i2].len() > base.len());
            } else {
                assert(whole[i1] == rest[i1 - 1] && whole[i2] == rest[i2 - 1]);
            }
        }
    }
}

/// On a tree named as a real filesystem is — sibling names distinct and
/// free of the separator — the reachable paths are pairwise distinct, so
/// [`lemma_traversal_completeness`] gives that every reachable directory is
/// visited exactly once.
pub proof fn lemma_names_wf_no_duplicates(root: Seq<char>, tree: DirNode)
    requires
        names_wf(tree),
    ensures
        reachable_dirs(root, tree).no_duplicates(),
{
    lemma_reach_no_dup(root, tree);
}

} // verus!

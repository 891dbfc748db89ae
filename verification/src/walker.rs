//! The traversal engine.
//!
//! The walker drives a depth-first traversal of a directory tree, applying
//! every rule to every visited directory, reporting matches and errors, and
//! running cleanup commands for matches unless a dry run was requested.
//!
//! All filesystem and process work is performed by the caller: the walker
//! is a state machine. Each call hands it the outcome of the previous
//! action (a directory listing or the raw status of a finished command) and
//! it answers with the next [`Action`]. Every transition is pinned to a
//! specification function (`spec_on_listing`, `spec_on_status`), so a whole
//! run is a mathematical function of the listings and statuses the caller
//! feeds in; the proofs in [`crate::laws`] build on that.
//!
//! Protocol, starting from [`Walker::new`]: answer [`Action::List`] with
//! [`Walker::on_listing`], answer [`Action::Run`] with
//! [`Walker::on_status`], and stop at [`Action::Done`].

use vstd::prelude::*;

use crate::command::CmdError;
use crate::command::CmdErrorModel;
use crate::command::RawStatus;
use crate::command::RawStatusModel;
use crate::command::interpret_raw;
use crate::command::spec_interpret;
use crate::rules::Entry;
use crate::rules::EntryKind;
use crate::rules::EntryModel;
use crate::rules::Pattern;
use crate::rules::PatternModel;
use crate::rules::entries_view;
use crate::rules::rules_view;
use crate::rules::strings_view;
use crate::rules::structural_match;

verus! {

/// Why a step of the traversal failed.
#[derive(Debug, PartialEq, Eq)]
pub enum Cause {
    /// Reading the directory failed; the payload is the caller's message.
    Io(String),
    /// A command's shell could not be spawned.
    Spawn(String),
    /// A command exceeded the wall-clock timeout.
    TimedOut,
    /// A cleanup command ran and exited with a non-zero status.
    NonZeroExit,
}

/// Mathematical image of a [`Cause`].
#[verifier::ext_equal]
pub ghost enum CauseModel {
    Io(Seq<char>),
    Spawn(Seq<char>),
    TimedOut,
    NonZeroExit,
}

impl View for Cause {
    type V = CauseModel;

    open spec fn view(&self) -> CauseModel {
        match self {
            Cause::Io(m) => CauseModel::Io(m@),
            Cause::Spawn(m) => CauseModel::Spawn(m@),
            Cause::TimedOut => CauseModel::TimedOut,
            Cause::NonZeroExit => CauseModel::NonZeroExit,
        }
    }
}

/// The cause corresponding to a process-level command error.
pub open spec fn spec_cause_of(e: CmdErrorModel) -> CauseModel {
    match e {
        CmdErrorModel::Spawn(m) => CauseModel::Spawn(m),
        CmdErrorModel::TimedOut => CauseModel::TimedOut,
    }
}

/// The cause corresponding to a process-level command error.
pub fn cause_of(e: CmdError) -> (c: Cause)
    ensures
        c@ == spec_cause_of(e@),
{
    match e {
        CmdError::Spawn(m) => Cause::Spawn(m),
        CmdError::TimedOut => Cause::TimedOut,
    }
}

/// One line of the traversal's output: what happened, where, under which
/// rule.
#[derive(Debug, PartialEq, Eq)]
pub enum Report {
    /// The directory satisfied the rule.
    Matched { dir: String, rule: String },
    /// Classifying the directory against the rule went wrong (the listing
    /// failed, or a verification command hit a process-level error).
    MatchError { dir: String, rule: String, cause: Cause },
    /// Every cleanup command of the rule succeeded in the directory.
    Cleaned { dir: String, rule: String },
    /// A cleanup command failed or hit a process-level error.
    CleanFailed { dir: String, rule: String, cause: Cause },
    /// Enumerating the directory's children for the traversal failed.
    ListFailed { dir: String, cause: Cause },
}

/// Mathematical image of a [`Report`].
#[verifier::ext_equal]
pub ghost enum ReportModel {
    Matched { dir: Seq<char>, rule: Seq<char> },
    MatchError { dir: Seq<char>, rule: Seq<char>, cause: CauseModel },
    Cleaned { dir: Seq<char>, rule: Seq<char> },
    CleanFailed { dir: Seq<char>, rule: Seq<char>, cause: CauseModel },
    ListFailed { dir: Seq<char>, cause: CauseModel },
}

impl View for Report {
    type V = ReportModel;

    open spec fn view(&self) -> ReportModel {
        match self {
            Report::Matched { dir, rule } => ReportModel::Matched { dir: dir@, rule: rule@ },
            Report::MatchError { dir, rule, cause } => ReportModel::MatchError {
                dir: dir@,
                rule: rule@,
                cause: cause@,
            },
            Report::Cleaned { dir, rule } => ReportModel::Cleaned { dir: dir@, rule: rule@ },
            Report::CleanFailed { dir, rule, cause } => ReportModel::CleanFailed {
                dir: dir@,
                rule: rule@,
                cause: cause@,
            },
            Report::ListFailed { dir, cause } => ReportModel::ListFailed {
                dir: dir@,
                cause: cause@,
            },
        }
    }
}

/// The views of a sequence of reports.
pub open spec fn reports_view(s: Seq<Report>) -> Seq<ReportModel> {
    s.map_values(|r: Report| r@)
}

/// What the walker asks its caller to do next.
#[derive(Debug, PartialEq, Eq)]
pub enum Action {
    /// Enumerate the direct children of `dir` and answer with
    /// [`Walker::on_listing`].
    List { dir: String },
    /// Run `cmd` under a shell, with working directory `dir` and the
    /// wall-clock timeout, and answer with [`Walker::on_status`].
    Run { cmd: String, dir: String },
    /// The traversal is complete.
    Done,
}

/// Mathematical image of an [`Action`].
#[verifier::ext_equal]
pub ghost enum ActionModel {
    List { dir: Seq<char> },
    Run { cmd: Seq<char>, dir: Seq<char> },
    Done,
}

impl View for Action {
    type V = ActionModel;

    open spec fn view(&self) -> ActionModel {
        match self {
            Action::List { dir } => ActionModel::List { dir: dir@ },
            Action::Run { cmd, dir } => ActionModel::Run { cmd: cmd@, dir: dir@ },
            Action::Done => ActionModel::Done,
        }
    }
}

/// Where the walker stands within the processing of one directory.
enum Mode {
    /// Waiting for the directory's listing, to classify it against rule
    /// `rule`.
    RuleListing { dir: String, rule: usize },
    /// Waiting for the status of verification command `cmd` of rule `rule`.
    Checking { dir: String, rule: usize, cmd: usize },
    /// Waiting for the status of cleanup command `cmd` of rule `rule`.
    Cleaning { dir: String, rule: usize, cmd: usize },
    /// Waiting for the directory's listing, to push its subdirectories onto
    /// the frontier.
    ChildListing { dir: String },
    /// The frontier is empty; the traversal is over.
    Finished,
}

/// Mathematical image of the walker's position.
#[verifier::ext_equal]
pub ghost enum ModeModel {
    RuleListing { dir: Seq<char>, rule: int },
    Checking { dir: Seq<char>, rule: int, cmd: int },
    Cleaning { dir: Seq<char>, rule: int, cmd: int },
    ChildListing { dir: Seq<char> },
    Finished,
}

impl Mode {
    spec fn model(&self) -> ModeModel {
        match self {
            Mode::RuleListing { dir, rule } => ModeModel::RuleListing {
                dir: dir@,
                rule: *rule as int,
            },
            Mode::Checking { dir, rule, cmd } => ModeModel::Checking {
                dir: dir@,
                rule: *rule as int,
                cmd: *cmd as int,
            },
            Mode::Cleaning { dir, rule, cmd } => ModeModel::Cleaning {
                dir: dir@,
                rule: *rule as int,
                cmd: *cmd as int,
            },
            Mode::ChildListing { dir } => ModeModel::ChildListing { dir: dir@ },
            Mode::Finished => ModeModel::Finished,
        }
    }
}

/// Mathematical image of a [`Walker`]: the rule models, the flag, the
/// frontier, the reports so far, the directories visited so far (ghost
/// bookkeeping for the traversal proofs) and the position.
#[verifier::ext_equal]
pub ghost struct WalkerModel {
    pub rules: Seq<PatternModel>,
    pub dry_run: bool,
    pub stack: Seq<Seq<char>>,
    pub reports: Seq<ReportModel>,
    pub visited: Seq<Seq<char>>,
    pub mode: ModeModel,
}

/// The indices of the walker's position stay inside the rule list and the
/// positioned rule's command lists.
pub open spec fn mode_wf(m: WalkerModel) -> bool {
    match m.mode {
        ModeModel::RuleListing { rule, .. } => 0 <= rule < m.rules.len(),
        ModeModel::Checking { rule, cmd, .. } => 0 <= rule < m.rules.len() && 0 <= cmd
            < m.rules[rule].check_commands.len(),
        ModeModel::Cleaning { rule, cmd, .. } => 0 <= rule < m.rules.len() && 0 <= cmd
            < m.rules[rule].clean_commands.len(),
        ModeModel::ChildListing { .. } => true,
        ModeModel::Finished => true,
    }
}

/// The path of a directory's child: the directory, a separator, the
/// child's name.
pub open spec fn child_path(dir: Seq<char>, name: Seq<char>) -> Seq<char> {
    dir + "/"@ + name
}

/// The paths of the subdirectory entries of a listing, in listing order.
pub open spec fn subdir_paths(dir: Seq<char>, entries: Seq<EntryModel>) -> Seq<Seq<char>>
    decreases entries.len(),
{
    if entries.len() == 0 {
        Seq::empty()
    } else {
        let rest = subdir_paths(dir, entries.drop_last());
        if entries.last().kind is Dir {
            rest.push(child_path(dir, entries.last().name))
        } else {
            rest
        }
    }
}

/// The view of a listing outcome.
pub open spec fn listing_view(l: Result<Vec<Entry>, String>) -> Result<Seq<EntryModel>, Seq<char>> {
    match l {
        Ok(v) => Ok(entries_view(v@)),
        Err(e) => Err(e@),
    }
}

// Transition helpers. Each takes the walker's model and yields the next
// model and the action handed to the caller.
/// Move on to rule `r` for `dir`, or to the children listing when the rules
/// are exhausted.
pub open spec fn spec_next_rule(s: WalkerModel, dir: Seq<char>, r: int) -> (WalkerModel, ActionModel) {
    if r < s.rules.len() {
        (
            WalkerModel { mode: ModeModel::RuleListing { dir, rule: r }, ..s },
            ActionModel::List { dir },
        )
    } else {
        spec_enter_children(s, dir)
    }
}

/// Rule processing for `dir` is over: enumerate its children.
pub open spec fn spec_enter_children(s: WalkerModel, dir: Seq<char>) -> (WalkerModel, ActionModel) {
    (WalkerModel { mode: ModeModel::ChildListing { dir }, ..s }, ActionModel::List { dir })
}

/// Rule `r` matched `dir`: report the match, then clean unless this is a
/// dry run. With no cleanup commands the cleanup trivially succeeds.
pub open spec fn spec_record_matched(s: WalkerModel, dir: Seq<char>, r: int) -> (
    WalkerModel,
    ActionModel,
)
    recommends
        0 <= r < s.rules.len(),
{
    let rule = s.rules[r];
    let s1 = WalkerModel {
        reports: s.reports.push(ReportModel::Matched { dir, rule: rule.name }),
        ..s
    };
    if s1.dry_run {
        spec_next_rule(s1, dir, r + 1)
    } else if rule.clean_commands.len() == 0 {
        let s2 = WalkerModel {
            reports: s1.reports.push(ReportModel::Cleaned { dir, rule: rule.name }),
            ..s1
        };
        spec_next_rule(s2, dir, r + 1)
    } else {
        (
            WalkerModel { mode: ModeModel::Cleaning { dir, rule: r, cmd: 0 }, ..s1 },
            ActionModel::Run { cmd: rule.clean_commands[0], dir },
        )
    }
}

/// The structural half of rule `r` holds of `dir`: run the verification
/// commands, or record the match when there are none.
pub open spec fn spec_after_structural(s: WalkerModel, dir: Seq<char>, r: int) -> (
    WalkerModel,
    ActionModel,
)
    recommends
        0 <= r < s.rules.len(),
{
    let rule = s.rules[r];
    if rule.check_commands.len() > 0 {
        (
            WalkerModel { mode: ModeModel::Checking { dir, rule: r, cmd: 0 }, ..s },
            ActionModel::Run { cmd: rule.check_commands[0], dir },
        )
    } else {
        spec_record_matched(s, dir, r)
    }
}

/// Pop the next pending directory and start its rule processing, or finish
/// when the frontier is empty. A popped directory counts as visited.
pub open spec fn spec_next_dir(s: WalkerModel) -> (WalkerModel, ActionModel) {
    if s.stack.len() > 0 {
        let dir = s.stack.last();
        let s1 = WalkerModel { stack: s.stack.drop_last(), visited: s.visited.push(dir), ..s };
        spec_next_rule(s1, dir, 0)
    } else {
        (WalkerModel { mode: ModeModel::Finished, ..s }, ActionModel::Done)
    }
}

/// The walker's reply to a directory listing. While classifying: a failed
/// listing is a match error reported against the current rule and ends rule
/// processing for this directory; otherwise the structural check decides
/// between the verification commands, the match, and the next rule. While
/// enumerating children: a failed listing is reported and tolerated;
/// otherwise every subdirectory joins the frontier. Either way the
/// traversal carries on.
pub open spec fn spec_on_listing(
    s: WalkerModel,
    listing: Result<Seq<EntryModel>, Seq<char>>,
) -> (WalkerModel, ActionModel)
    recommends
        mode_wf(s),
        s.mode is RuleListing || s.mode is ChildListing,
{
    match s.mode {
        ModeModel::RuleListing { dir, rule } => match listing {
            Result::Err(e) => {
                let s1 = WalkerModel {
                    reports: s.reports.push(
                        ReportModel::MatchError {
                            dir,
                            rule: s.rules[rule].name,
                            cause: CauseModel::Io(e),
                        },
                    ),
                    ..s
                };
                spec_enter_children(s1, dir)
            },
            Result::Ok(entries) => {
                if structural_match(s.rules[rule], entries) {
                    spec_after_structural(s, dir, rule)
                } else {
                    spec_next_rule(s, dir, rule + 1)
                }
            },
        },
        ModeModel::ChildListing { dir } => match listing {
            Result::Err(e) => {
                let s1 = WalkerModel {
                    reports: s.reports.push(
                        ReportModel::ListFailed { dir, cause: CauseModel::Io(e) },
                    ),
                    ..s
                };
                spec_next_dir(s1)
            },
            Result::Ok(entries) => {
                let s1 = WalkerModel { stack: s.stack + subdir_paths(dir, entries), ..s };
                spec_next_dir(s1)
            },
        },
        _ => (s, ActionModel::Done),
    }
}

/// The walker's reply to a finished command. A verification command:
/// process-level errors are match errors and end rule processing for this
/// directory; a non-zero exit is an ordinary no-match; success moves to the
/// next verification command or records the match. A cleanup command:
/// errors and non-zero exits are reported as cleanup failures; success
/// moves to the next cleanup command, the last one completing the cleanup.
pub open spec fn spec_on_status(s: WalkerModel, raw: RawStatusModel) -> (WalkerModel, ActionModel)
    recommends
        mode_wf(s),
        s.mode is Checking || s.mode is Cleaning,
{
    let outcome = spec_interpret(raw);
    match s.mode {
        ModeModel::Checking { dir, rule, cmd } => match outcome {
            Result::Err(e) => {
                let s1 = WalkerModel {
                    reports: s.reports.push(
                        ReportModel::MatchError {
                            dir,
                            rule: s.rules[rule].name,
                            cause: spec_cause_of(e),
                        },
                    ),
                    ..s
                };
                spec_enter_children(s1, dir)
            },
            Result::Ok(passed) => {
                if !passed {
                    spec_next_rule(s, dir, rule + 1)
                } else if cmd + 1 < s.rules[rule].check_commands.len() {
                    (
                        WalkerModel { mode: ModeModel::Checking { dir, rule, cmd: cmd + 1 }, ..s },
                        ActionModel::Run { cmd: s.rules[rule].check_commands[cmd + 1], dir },
                    )
                } else {
                    spec_record_matched(s, dir, rule)
                }
            },
        },
        ModeModel::Cleaning { dir, rule, cmd } => match outcome {
            Result::Err(e) => {
                let s1 = WalkerModel {
                    reports: s.reports.push(
                        ReportModel::CleanFailed {
                            dir,
                            rule: s.rules[rule].name,
                            cause: spec_cause_of(e),
                        },
                    ),
                    ..s
                };
                spec_next_rule(s1, dir, rule + 1)
            },
            Result::Ok(passed) => {
                if !passed {
                    let s1 = WalkerModel {
                        reports: s.reports.push(
                            ReportModel::CleanFailed {
                                dir,
                                rule: s.rules[rule].name,
                                cause: CauseModel::NonZeroExit,
                            },
                        ),
                        ..s
                    };
                    spec_next_rule(s1, dir, rule + 1)
                } else if cmd + 1 < s.rules[rule].clean_commands.len() {
                    (
                        WalkerModel { mode: ModeModel::Cleaning { dir, rule, cmd: cmd + 1 }, ..s },
                        ActionModel::Run { cmd: s.rules[rule].clean_commands[cmd + 1], dir },
                    )
                } else {
                    let s1 = WalkerModel {
                        reports: s.reports.push(
                            ReportModel::Cleaned { dir, rule: s.rules[rule].name },
                        ),
                        ..s
                    };
                    spec_next_rule(s1, dir, rule + 1)
                }
            },
        },
        _ => (s, ActionModel::Done),
    }
}

/// The walker's starting point: a frontier holding the root alone, no
/// reports, nothing visited, and the first directory already popped.
pub open spec fn spec_new(rules: Seq<PatternModel>, root: Seq<char>, dry_run: bool) -> (
    WalkerModel,
    ActionModel,
) {
    spec_next_dir(
        WalkerModel {
            rules,
            dry_run,
            stack: seq![root],
            reports: Seq::empty(),
            visited: Seq::empty(),
            mode: ModeModel::Finished,
        },
    )
}

/// The traversal engine. See the module documentation for the protocol.
pub struct Walker {
    rules: Vec<Pattern>,
    dry_run: bool,
    stack: Vec<String>,
    reports: Vec<Report>,
    visited: Ghost<Seq<Seq<char>>>,
    mode: Mode,
}

impl View for Walker {
    type V = WalkerModel;

    closed spec fn view(&self) -> WalkerModel {
        WalkerModel {
            rules: rules_view(self.rules@),
            dry_run: self.dry_run,
            stack: strings_view(self.stack@),
            reports: reports_view(self.reports@),
            visited: self.visited@,
            mode: self.mode.model(),
        }
    }
}

impl Walker {
    /// A walker over the given rules, rooted at `root`. The pair holds the
    /// walker and the first action to perform.
    pub fn new(rules: Vec<Pattern>, root: String, dry_run: bool) -> (r: (Walker, Action))
        ensures
            r.0@ == spec_new(rules_view(rules@), root@, dry_run).0,
            r.1@ == spec_new(rules_view(rules@), root@, dry_run).1,
            mode_wf(r.0@),
    {
        let mut stack: Vec<String> = Vec::new();
        stack.push(root);
        let mut w = Walker {
            rules,
            dry_run,
            stack,
            reports: Vec::new(),
            visited: Ghost(Seq::empty()),
            mode: Mode::Finished,
        };
        assert(w@.stack =~= seq![w.stack@[0]@]);
        assert(w@.reports =~= Seq::<ReportModel>::empty());
        let a = w.advance_next_dir();
        (w, a)
    }

    /// The reports accumulated so far, in the order they were produced.
    pub fn reports(&self) -> (r: &Vec<Report>)
        ensures
            reports_view(r@) == self@.reports,
    {
        &self.reports
    }

    /// Whether the walker is waiting for a cleanup command, as opposed to a
    /// listing or a verification command.
    pub fn is_cleaning(&self) -> (r: bool)
        ensures
            r == self@.mode is Cleaning,
    {
        match &self.mode {
            Mode::Cleaning { .. } => true,
            _ => false,
        }
    }

    /// Hand the walker the listing it asked for with [`Action::List`] (or
    /// the error that enumeration ran into). The new state and the next
    /// action are exactly [`spec_on_listing`] of the old state and the
    /// listing.
    pub fn on_listing(&mut self, listing: Result<Vec<Entry>, String>) -> (a: Action)
        requires
            mode_wf(old(self)@),
            old(self)@.mode is RuleListing || old(self)@.mode is ChildListing,
        ensures
            final(self)@ == spec_on_listing(old(self)@, listing_view(listing)).0,
            a@ == spec_on_listing(old(self)@, listing_view(listing)).1,
            mode_wf(final(self)@),
    {
        let snapshot = match &self.mode {
            Mode::RuleListing { dir, rule } => Mode::RuleListing { dir: dir.clone(), rule: *rule },
            Mode::Checking { dir, rule, cmd } => Mode::Checking {
                dir: dir.clone(),
                rule: *rule,
                cmd: *cmd,
            },
            Mode::Cleaning { dir, rule, cmd } => Mode::Cleaning {
                dir: dir.clone(),
                rule: *rule,
                cmd: *cmd,
            },
            Mode::ChildListing { dir } => Mode::ChildListing { dir: dir.clone() },
            Mode::Finished => Mode::Finished,
        };
        match snapshot {
            Mode::RuleListing { dir, rule } => {
                match listing {
                    Err(e) => {
                        let name = self.rules[rule].name.clone();
                        let report = Report::MatchError {
                            dir: dir.clone(),
                            rule: name,
                            cause: Cause::Io(e),
                        };
                        proof {
                            lemma_reports_view_push(self.reports@, report);
                        }
                        self.reports.push(report);
                        self.enter_children(dir)
                    },
                    Ok(entries) => {
                        if self.rules[rule].matches_listing(&entries) {
                            self.after_structural(dir, rule)
                        } else {
                            // rule < n, so rule + 1 cannot overflow
                            let n: usize = self.rules.len();
                            self.set_rule_mode(dir, rule + 1)
                        }
                    },
                }
            },
            Mode::ChildListing { dir } => {
                match listing {
                    Err(e) => {
                        let report = Report::ListFailed { dir, cause: Cause::Io(e) };
                        proof {
                            lemma_reports_view_push(self.reports@, report);
                        }
                        self.reports.push(report);
                        self.advance_next_dir()
                    },
                    Ok(entries) => {
                        self.push_subdirs(&dir, &entries);
                        self.advance_next_dir()
                    },
                }
            },
            _ => Action::Done,
        }
    }

    /// Hand the walker the raw status of the command it asked for with
    /// [`Action::Run`]. The new state and the next action are exactly
    /// [`spec_on_status`] of the old state and the status.
    pub fn on_status(&mut self, raw: RawStatus) -> (a: Action)
        requires
            mode_wf(old(self)@),
            old(self)@.mode is Checking || old(self)@.mode is Cleaning,
        ensures
            final(self)@ == spec_on_status(old(self)@, raw@).0,
            a@ == spec_on_status(old(self)@, raw@).1,
            mode_wf(final(self)@),
    {
        let outcome = interpret_raw(raw);
        let snapshot = match &self.mode {
            Mode::RuleListing { dir, rule } => Mode::RuleListing { dir: dir.clone(), rule: *rule },
            Mode::Checking { dir, rule, cmd } => Mode::Checking {
                dir: dir.clone(),
                rule: *rule,
                cmd: *cmd,
            },
            Mode::Cleaning { dir, rule, cmd } => Mode::Cleaning {
                dir: dir.clone(),
                rule: *rule,
                cmd: *cmd,
            },
            Mode::ChildListing { dir } => Mode::ChildListing { dir: dir.clone() },
            Mode::Finished => Mode::Finished,
        };
        match snapshot {
            Mode::Checking { dir, rule, cmd } => {
                match outcome {
                    Err(e) => {
                        let name = self.rules[rule].name.clone();
                        let report = Report::MatchError {
                            dir: dir.clone(),
                            rule: name,
                            cause: cause_of(e),
                        };
                        proof {
                            lemma_reports_view_push(self.reports@, report);
                        }
                        self.reports.push(report);
                        self.enter_children(dir)
                    },
                    Ok(passed) => {
                        if !passed {
                            // rule < n, so rule + 1 cannot overflow
                            let n: usize = self.rules.len();
                            self.set_rule_mode(dir, rule + 1)
                        } else {
                            let n_cmds = self.rules[rule].check_commands.len();
                            if cmd + 1 < n_cmds {
                                let c = self.rules[rule].check_commands[cmd + 1].clone();
                                let a = Action::Run { cmd: c, dir: dir.clone() };
                                self.mode = Mode::Checking { dir, rule, cmd: cmd + 1 };
                                a
                            } else {
                                self.record_matched(dir, rule)
                            }
                        }
                    },
                }
            },
            Mode::Cleaning { dir, rule, cmd } => {
                match outcome {
                    Err(e) => {
                        let name = self.rules[rule].name.clone();
                        let report = Report::CleanFailed {
                            dir: dir.clone(),
                            rule: name,
                            cause: cause_of(e),
                        };
                        proof {
                            lemma_reports_view_push(self.reports@, report);
                        }
                        self.reports.push(report);
                        // rule < n, so rule + 1 cannot overflow
                        let n: usize = self.rules.len();
                        self.set_rule_mode(dir, rule + 1)
                    },
                    Ok(passed) => {
                        if !passed {
                            let name = self.rules[rule].name.clone();
                            let report = Report::CleanFailed {
                                dir: dir.clone(),
                                rule: name,
                                cause: Cause::NonZeroExit,
                            };
                            proof {
                                lemma_reports_view_push(self.reports@, report);
                            }
                            self.reports.push(report);
                            // rule < n, so rule + 1 cannot overflow
                            let n: usize = self.rules.len();
                            self.set_rule_mode(dir, rule + 1)
                        } else {
                            let n_cmds = self.rules[rule].clean_commands.len();
                            if cmd + 1 < n_cmds {
                                let c = self.rules[rule].clean_commands[cmd + 1].clone();
                                let a = Action::Run { cmd: c, dir: dir.clone() };
                                self.mode = Mode::Cleaning { dir, rule, cmd: cmd + 1 };
                                a
                            } else {
                                let name = self.rules[rule].name.clone();
                                let report = Report::Cleaned { dir: dir.clone(), rule: name };
                                proof {
                                    lemma_reports_view_push(self.reports@, report);
                                }
                                self.reports.push(report);
                                // rule < n, so rule + 1 cannot overflow
                                let n: usize = self.rules.len();
                                self.set_rule_mode(dir, rule + 1)
                            }
                        }
                    },
                }
            },
            _ => Action::Done,
        }
    }

    /// Pop the next pending directory, or finish.
    fn advance_next_dir(&mut self) -> (a: Action)
        ensures
            final(self)@ == spec_next_dir(old(self)@).0,
            a@ == spec_next_dir(old(self)@).1,
            mode_wf(final(self)@),
    {
        proof {
            lemma_strings_view_drop_last(self.stack@);
        }
        match self.stack.pop() {
            Some(dir) => {
                self.visited = Ghost(self.visited@.push(dir@));
                self.set_rule_mode(dir, 0)
            },
            None => {
                self.mode = Mode::Finished;
                Action::Done
            },
        }
    }

    /// Position at rule `r` for `dir`, or at the children listing when the
    /// rules are exhausted.
    fn set_rule_mode(&mut self, dir: String, r: usize) -> (a: Action)
        ensures
            final(self)@ == spec_next_rule(old(self)@, dir@, r as int).0,
            a@ == spec_next_rule(old(self)@, dir@, r as int).1,
            mode_wf(final(self)@),
    {
        if r < self.rules.len() {
            let a = Action::List { dir: dir.clone() };
            self.mode = Mode::RuleListing { dir, rule: r };
            a
        } else {
            let a = Action::List { dir: dir.clone() };
            self.mode = Mode::ChildListing { dir };
            a
        }
    }

    /// Position at the children listing of `dir`.
    fn enter_children(&mut self, dir: String) -> (a: Action)
        ensures
            final(self)@ == spec_enter_children(old(self)@, dir@).0,
            a@ == spec_enter_children(old(self)@, dir@).1,
            mode_wf(final(self)@),
    {
        let a = Action::List { dir: dir.clone() };
        self.mode = Mode::ChildListing { dir };
        a
    }

    /// Rule `r` holds structurally of `dir`: start its verification
    /// commands, or record the match outright.
    fn after_structural(&mut self, dir: String, rule: usize) -> (a: Action)
        requires
            rule < old(self)@.rules.len(),
        ensures
            final(self)@ == spec_after_structural(old(self)@, dir@, rule as int).0,
            a@ == spec_after_structural(old(self)@, dir@, rule as int).1,
            mode_wf(final(self)@),
    {
        if self.rules[rule].check_commands.len() > 0 {
            let c = self.rules[rule].check_commands[0].clone();
            let a = Action::Run { cmd: c, dir: dir.clone() };
            self.mode = Mode::Checking { dir, rule, cmd: 0 };
            a
        } else {
            self.record_matched(dir, rule)
        }
    }

    /// Rule `r` matched `dir`: report, then clean unless this is a dry run.
    fn record_matched(&mut self, dir: String, rule: usize) -> (a: Action)
        requires
            rule < old(self)@.rules.len(),
        ensures
            final(self)@ == spec_record_matched(old(self)@, dir@, rule as int).0,
            a@ == spec_record_matched(old(self)@, dir@, rule as int).1,
            mode_wf(final(self)@),
    {
        // rule < n, so rule + 1 cannot overflow
        let n: usize = self.rules.len();
        let name = self.rules[rule].name.clone();
        let report = Report::Matched { dir: dir.clone(), rule: name };
        proof {
            lemma_reports_view_push(self.reports@, report);
        }
        self.reports.push(report);
        if self.dry_run {
            self.set_rule_mode(dir, rule + 1)
        } else if self.rules[rule].clean_commands.len() == 0 {
            let name2 = self.rules[rule].name.clone();
            let report2 = Report::Cleaned { dir: dir.clone(), rule: name2 };
            proof {
                lemma_reports_view_push(self.reports@, report2);
            }
            self.reports.push(report2);
            self.set_rule_mode(dir, rule + 1)
        } else {
            let c = self.rules[rule].clean_commands[0].clone();
            let a = Action::Run { cmd: c, dir: dir.clone() };
            self.mode = Mode::Cleaning { dir, rule, cmd: 0 };
            a
        }
    }

    /// Append the path of every subdirectory entry to the frontier, in
    /// listing order.
    fn push_subdirs(&mut self, dir: &String, entries: &Vec<Entry>)
        ensures
            final(self)@ == (WalkerModel {
                stack: old(self)@.stack + subdir_paths(dir@, entries_view(entries@)),
                ..old(self)@
            }),
    {
        let ghost all = entries_view(entries@);
        let mut i: usize = 0;
        while i < entries.len()
            invariant
                i <= entries@.len(),
                all == entries_view(entries@),
                self@ == (WalkerModel {
                    stack: old(self)@.stack + subdir_paths(dir@, all.take(i as int)),
                    ..old(self)@
                }),
            decreases entries@.len() - i,
        {
            proof {
                assert(all.take(i + 1).drop_last() =~= all.take(i as int));
                assert(all.take(i + 1).last() == all[i as int]);
            }
            let e = &entries[i];
            if e.kind == EntryKind::Dir {
                let mut path = dir.clone();
                path.append("/");
                path.append(e.name.as_str());
                assert(path@ == child_path(dir@, all[i as int].name));
                proof {
                    lemma_strings_view_push(self.stack@, path);
                }
                self.stack.push(path);
                assert(self@.stack =~= old(self)@.stack + subdir_paths(dir@, all.take(i + 1)));
            } else {
                assert(subdir_paths(dir@, all.take(i + 1)) =~= subdir_paths(
                    dir@,
                    all.take(i as int),
                ));
            }
            i = i + 1;
        }
        proof {
            assert(all.take(entries@.len() as int) =~= all);
        }
    }
}

/// Pushing a report extends the sequence of report views by its view.
proof fn lemma_reports_view_push(s: Seq<Report>, r: Report)
    ensures
        reports_view(s.push(r)) == reports_view(s).push(r@),
{
    assert(reports_view(s.push(r)) =~= reports_view(s).push(r@));
}

/// Pushing a string extends the sequence of string views by its view.
proof fn lemma_strings_view_push(s: Seq<String>, x: String)
    ensures
        strings_view(s.push(x)) == strings_view(s).push(x@),
{
    assert(strings_view(s.push(x)) =~= strings_view(s).push(x@));
}

/// Dropping the last string drops the last view, and the views of the last
/// elements agree.
proof fn lemma_strings_view_drop_last(s: Seq<String>)
    ensures
        s.len() > 0 ==> strings_view(s.subrange(0, s.len() - 1)) == strings_view(s).drop_last(),
        s.len() > 0 ==> s[s.len() - 1]@ == strings_view(s).last(),
{
    if s.len() > 0 {
        assert(strings_view(s.subrange(0, s.len() - 1)) =~= strings_view(s).drop_last());
    }
}

/// Counters reported once at the end of a run.
#[derive(Debug, PartialEq, Eq)]
pub struct Summary {
    /// How many (directory, rule) pairs matched.
    pub matched: usize,
    /// How many matches were cleaned to completion.
    pub cleaned: usize,
}

/// The number of match reports in a report sequence.
pub open spec fn count_matched(rs: Seq<ReportModel>) -> nat
    decreases rs.len(),
{
    if rs.len() == 0 {
        0
    } else {
        count_matched(rs.drop_last()) + if rs.last() is Matched {
            1nat
        } else {
            0nat
        }
    }
}

/// The number of completed-cleanup reports in a report sequence.
pub open spec fn count_cleaned(rs: Seq<ReportModel>) -> nat
    decreases rs.len(),
{
    if rs.len() == 0 {
        0
    } else {
        count_cleaned(rs.drop_last()) + if rs.last() is Cleaned {
            1nat
        } else {
            0nat
        }
    }
}

/// Counting never exceeds the sequence's length.
proof fn lemma_counts_le_len(rs: Seq<ReportModel>)
    ensures
        count_matched(rs) <= rs.len(),
        count_cleaned(rs) <= rs.len(),
    decreases rs.len(),
{
    if rs.len() > 0 {
        lemma_counts_le_len(rs.drop_last());
    }
}

/// The run's counters: how many matches the reports hold, and how many
/// completed cleanups.
pub fn summarize(reports: &Vec<Report>) -> (s: Summary)
    ensures
        s.matched == count_matched(reports_view(reports@)),
        s.cleaned == count_cleaned(reports_view(reports@)),
{
    let ghost all = reports_view(reports@);
    let mut matched: usize = 0;
    let mut cleaned: usize = 0;
    let mut i: usize = 0;
    while i < reports.len()
        invariant
            i <= reports@.len(),
            all == reports_view(reports@),
            matched == count_matched(all.take(i as int)),
            cleaned == count_cleaned(all.take(i as int)),
        decreases reports@.len() - i,
    {
        proof {
            assert(all.take(i + 1).drop_last() =~= all.take(i as int));
            assert(all.take(i + 1).last() == all[i as int]);
            lemma_counts_le_len(all.take(i as int));
        }
        match &reports[i] {
            Report::Matched { .. } => {
                matched = matched + 1;
            },
            Report::Cleaned { .. } => {
                cleaned = cleaned + 1;
            },
            _ => {},
        }
        i = i + 1;
    }
    proof {
        assert(all.take(reports@.len() as int) =~= all);
    }
    Summary { matched, cleaned }
}

} // verus!

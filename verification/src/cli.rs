//! The `view` command: what its arguments ask for, step by step.
use vstd::prelude::*;

use crate::diff::scope::DiffScope;
use crate::text;

verus! {

// ---------------------------------------------------------------------------
// Steps
// ---------------------------------------------------------------------------

/// A request to show a diff in a pane.
#[derive(Debug, PartialEq, Eq)]
pub struct DiffRequest {
    pub id: String,
    pub pane_id: String,
    pub baseline: Option<String>,
    pub scope: Option<DiffScope>,
}

/// What a [`DiffRequest`] holds.
#[verifier::ext_equal]
pub struct RequestModel {
    pub id: Seq<char>,
    pub pane_id: Seq<char>,
    pub baseline: Option<Seq<char>>,
    pub scope: Option<DiffScope>,
}

/// The text in an option.
pub open spec fn optional(text: Option<String>) -> Option<Seq<char>> {
    match text {
        Some(text) => Some(text@),
        None => None,
    }
}

impl DeepView for DiffRequest {
    type V = RequestModel;

    open spec fn deep_view(&self) -> RequestModel {
        RequestModel {
            id: self.id@,
            pane_id: self.pane_id@,
            baseline: optional(self.baseline),
            scope: self.scope,
        }
    }
}

/// What the command has to do next.
#[derive(Debug, PartialEq, Eq)]
pub enum CommandStep {
    /// Print these lines to standard error and exit.
    Exit { stderr: Vec<String>, code: i32 },
    /// Find out which pane the command runs in.
    ReadPaneId { baseline: Option<String> },
    /// Find out whether the current directory is in a repository.
    ProbeRepository { baseline: Option<String>, pane_id: String },
    /// Send this request, print the response and exit with its status.
    Send(DiffRequest),
}

/// What a [`CommandStep`] holds.
#[verifier::ext_equal]
pub enum StepModel {
    Exit { stderr: Seq<Seq<char>>, code: int },
    ReadPaneId { baseline: Option<Seq<char>> },
    ProbeRepository { baseline: Option<Seq<char>>, pane_id: Seq<char> },
    Send(RequestModel),
}

impl DeepView for CommandStep {
    type V = StepModel;

    open spec fn deep_view(&self) -> StepModel {
        match self {
            CommandStep::Exit { stderr, code } => StepModel::Exit {
                stderr: stderr.deep_view(),
                code: *code as int,
            },
            CommandStep::ReadPaneId { baseline } => StepModel::ReadPaneId {
                baseline: optional(*baseline),
            },
            CommandStep::ProbeRepository { baseline, pane_id } => StepModel::ProbeRepository {
                baseline: optional(*baseline),
                pane_id: pane_id@,
            },
            CommandStep::Send(request) => StepModel::Send(request.deep_view()),
        }
    }
}

// ---------------------------------------------------------------------------
// Meaning
// ---------------------------------------------------------------------------

/// How the command is used.
pub open spec fn help() -> Seq<Seq<char>> {
    seq![
        "usage: herdr view <subcommand> [args...]"@,
        ""@,
        "subcommands:"@,
        "  diff [--baseline <ref>]  Convert the current pane to a diff view"@,
    ]
}

/// The baseline that `args` ask for, where `found` is the one that they asked
/// for so far; or what is wrong with them.
pub open spec fn baseline_of(args: Seq<Seq<char>>, found: Option<Seq<char>>) -> Result<
    Option<Seq<char>>,
    Seq<char>,
>
    decreases args.len(),
{
    if args.len() == 0 {
        Ok(found)
    } else if args[0] != "--baseline"@ {
        Err("unknown argument: "@ + args[0])
    } else if args.len() == 1 {
        Err("missing value for --baseline"@)
    } else {
        baseline_of(args.skip(2), Some(args[1]))
    }
}

/// A complaint: one line, and the exit status for wrong use.
pub open spec fn complaint(line: Seq<char>) -> StepModel {
    StepModel::Exit { stderr: seq![line], code: 2 }
}

/// The first step of `view diff` with these arguments.
pub open spec fn diff_started(args: Seq<Seq<char>>) -> StepModel {
    match baseline_of(args, None) {
        Ok(baseline) => StepModel::ReadPaneId { baseline },
        Err(message) => complaint(message),
    }
}

/// The first step of `view` with these arguments.
pub open spec fn view_started(args: Seq<Seq<char>>) -> StepModel {
    if args.len() == 0 {
        StepModel::Exit { stderr: help(), code: 2 }
    } else if args[0] == "diff"@ {
        diff_started(args.skip(1))
    } else if args[0] == "help"@ || args[0] == "--help"@ || args[0] == "-h"@ {
        StepModel::Exit { stderr: help(), code: 0 }
    } else {
        StepModel::Exit { stderr: seq!["unknown subcommand: "@ + args[0]] + help(), code: 2 }
    }
}

/// The step after looking for the pane's identity in the environment variable
/// `variable`.
pub open spec fn pane_looked_up(
    baseline: Option<Seq<char>>,
    pane_id: Option<Seq<char>>,
    variable: Seq<char>,
) -> StepModel {
    match pane_id {
        Some(pane_id) => StepModel::ProbeRepository { baseline, pane_id },
        None => complaint(
            "not running inside a herdr pane (set $"@ + variable + " to opt in manually)"@,
        ),
    }
}

/// The step after looking for a repository around `cwd`.
pub open spec fn repository_looked_up(
    baseline: Option<Seq<char>>,
    pane_id: Seq<char>,
    cwd: Seq<char>,
    is_repository: bool,
) -> StepModel {
    if is_repository {
        StepModel::Send(
            RequestModel { id: "cli:view:diff"@, pane_id, baseline, scope: None },
        )
    } else {
        complaint("not a git repository: "@ + cwd)
    }
}

/// What `view diff` comes to in the end, in these surroundings.
pub open spec fn diff_outcome(
    args: Seq<Seq<char>>,
    pane_id: Option<Seq<char>>,
    variable: Seq<char>,
    cwd: Seq<char>,
    is_repository: bool,
) -> StepModel {
    match diff_started(args) {
        StepModel::ReadPaneId { baseline } => match pane_looked_up(baseline, pane_id, variable) {
            StepModel::ProbeRepository { baseline, pane_id } => repository_looked_up(
                baseline,
                pane_id,
                cwd,
                is_repository,
            ),
            step => step,
        },
        step => step,
    }
}

// ---------------------------------------------------------------------------
// Laws
// ---------------------------------------------------------------------------

/// Arguments are accepted exactly if they are flags with a value each; the last
/// value counts, and without arguments there is none.
pub proof fn lemma_baseline_of(args: Seq<Seq<char>>, found: Option<Seq<char>>)
    ensures
        baseline_of(args, found) is Ok <==> args.len() % 2 == 0 && forall|i: int|
            0 <= i < args.len() && i % 2 == 0 ==> #[trigger] args[i] == "--baseline"@,
        baseline_of(args, found) matches Ok(baseline) ==> baseline == (if args.len() == 0 {
            found
        } else {
            Some(args.last())
        }),
    decreases args.len(),
{
    if args.len() >= 2 && args[0] == "--baseline"@ {
        let rest = args.skip(2);
        lemma_baseline_of(rest, Some(args[1]));
        if forall|i: int|
            0 <= i < rest.len() && i % 2 == 0 ==> #[trigger] rest[i] == "--baseline"@ {
            assert forall|i: int| 0 <= i < args.len() && i % 2 == 0 implies #[trigger] args[i]
                == "--baseline"@ by {
                if i >= 2 {
                    assert(rest[i - 2] == args[i]);
                }
            }
        }
        if forall|i: int|
            0 <= i < args.len() && i % 2 == 0 ==> #[trigger] args[i] == "--baseline"@ {
            assert forall|i: int| 0 <= i < rest.len() && i % 2 == 0 implies #[trigger] rest[i]
                == "--baseline"@ by {
                assert(rest[i] == args[i + 2]);
            }
        }
    } else if args.len() > 0 {
        assert(args[0] != "--baseline"@ || args.len() == 1);
    }
}

/// A request is sent exactly if the arguments are right, the command runs in a
/// pane, and the directory is in a repository; it then names that pane and the
/// baseline that was asked for. In any other case the command complains in one
/// line and exits with status 2.
pub proof fn lemma_request_or_complaint(
    args: Seq<Seq<char>>,
    pane_id: Option<Seq<char>>,
    variable: Seq<char>,
    cwd: Seq<char>,
    is_repository: bool,
)
    ensures
        ({
            let outcome = diff_outcome(args, pane_id, variable, cwd, is_repository);
            let baseline = baseline_of(args, None);
            if baseline is Ok && pane_id is Some && is_repository {
                outcome == StepModel::Send(
                    RequestModel {
                        id: "cli:view:diff"@,
                        pane_id: pane_id->0,
                        baseline: baseline->Ok_0,
                        scope: None,
                    },
                )
            } else {
                outcome matches StepModel::Exit { stderr, code } && stderr.len() == 1 && code == 2
            }
        }),
{
}

/// What `view` does with its first argument: without one it prints how it is used and
/// fails; asked for help it prints the same and succeeds; `diff` is handed the other
/// arguments; any other word is named before the help, and fails.
pub proof fn lemma_subcommands(args: Seq<Seq<char>>)
    ensures
        ({
            let usage = seq![
                "usage: herdr view <subcommand> [args...]"@,
                ""@,
                "subcommands:"@,
                "  diff [--baseline <ref>]  Convert the current pane to a diff view"@,
            ];
            let step = view_started(args);
            &&& args.len() == 0 ==> step == (StepModel::Exit { stderr: usage, code: 2 })
            &&& args.len() > 0 && args[0] == "diff"@ ==> step == diff_started(args.skip(1))
            &&& args.len() > 0 && (args[0] == "help"@ || args[0] == "--help"@ || args[0]
                == "-h"@) ==> step == (StepModel::Exit { stderr: usage, code: 0 })
            &&& args.len() > 0 && args[0] != "diff"@ && args[0] != "help"@ && args[0] != "--help"@
                && args[0] != "-h"@ ==> step == (StepModel::Exit {
                stderr: seq!["unknown subcommand: "@ + args[0]] + usage,
                code: 2,
            })
        }),
{
    reveal_strlit("diff");
    reveal_strlit("help");
    reveal_strlit("--help");
    reveal_strlit("-h");
    assert("diff"@[0] != "help"@[0]);
}

/// The first argument that is wrong is complained of: one that is not the flag is
/// named, and a flag at the end lacks its value. What came before it does not matter.
pub proof fn lemma_wrong_arguments(values: Seq<Seq<char>>, rest: Seq<Seq<char>>)
    requires
        rest.len() > 0,
        rest[0] != "--baseline"@ || rest.len() == 1,
    ensures
        diff_started(flags(values) + rest) == (StepModel::Exit {
            stderr: seq![
                if rest[0] != "--baseline"@ {
                    "unknown argument: "@ + rest[0]
                } else {
                    "missing value for --baseline"@
                },
            ],
            code: 2,
        }),
{
    lemma_flags_then(values, rest, None);
}

/// The baseline is the last one given, all of it, and none if none is.
pub proof fn lemma_right_arguments(values: Seq<Seq<char>>)
    ensures
        diff_started(flags(values)) == (StepModel::ReadPaneId {
            baseline: if values.len() > 0 {
                Some(values.last())
            } else {
                None
            },
        }),
{
    lemma_flags_then(values, Seq::empty(), None);
    assert(flags(values) + Seq::<Seq<char>>::empty() =~= flags(values));
}

/// The flag before each of `values`.
pub open spec fn flags(values: Seq<Seq<char>>) -> Seq<Seq<char>>
    decreases values.len(),
{
    if values.len() == 0 {
        Seq::empty()
    } else {
        seq!["--baseline"@, values[0]] + flags(values.skip(1))
    }
}

proof fn lemma_flags_then(
    values: Seq<Seq<char>>,
    rest: Seq<Seq<char>>,
    found: Option<Seq<char>>,
)
    ensures
        baseline_of(flags(values) + rest, found) == baseline_of(
            rest,
            if values.len() > 0 {
                Some(values.last())
            } else {
                found
            },
        ),
    decreases values.len(),
{
    let all = flags(values) + rest;
    if values.len() == 0 {
        assert(all =~= rest);
    } else {
        lemma_flags_then(values.skip(1), rest, Some(values[0]));
        assert(all[0] == "--baseline"@ && all[1] == values[0]);
        assert(all.skip(2) =~= flags(values.skip(1)) + rest);
        if values.len() > 1 {
            assert(values.skip(1).last() == values.last());
        }
    }
}

/// What follows the arguments: without a pane the command says how to name one, outside
/// a repository it says so, and else it asks for the diff in that pane with that
/// baseline.
pub proof fn lemma_surroundings(
    baseline: Option<Seq<char>>,
    pane_id: Seq<char>,
    variable: Seq<char>,
    cwd: Seq<char>,
)
    ensures
        pane_looked_up(baseline, None, variable) == (StepModel::Exit {
            stderr: seq![
                "not running inside a herdr pane (set $"@ + variable + " to opt in manually)"@,
            ],
            code: 2,
        }),
        pane_looked_up(baseline, Some(pane_id), variable) == (StepModel::ProbeRepository {
            baseline,
            pane_id,
        }),
        repository_looked_up(baseline, pane_id, cwd, false) == (StepModel::Exit {
            stderr: seq!["not a git repository: "@ + cwd],
            code: 2,
        }),
        repository_looked_up(baseline, pane_id, cwd, true) == StepModel::Send(
            RequestModel { id: "cli:view:diff"@, pane_id, baseline, scope: None },
        ),
{
}

// ---------------------------------------------------------------------------
// The command
// ---------------------------------------------------------------------------

fn reads(text: &String, word: &str) -> (yes: bool)
    ensures
        yes == (text@ == word@),
{
    text::same_text(text.as_str(), word)
}

/// Starts the `view` command.
pub fn run_view_command(args: &[String]) -> (step: CommandStep)
    ensures
        step.deep_view() == view_started(args.deep_view()),
{
    if args.len() == 0 {
        return CommandStep::Exit { stderr: view_help(), code: 2 };
    }
    let subcommand = &args[0];
    assert(args.deep_view()[0] == subcommand@);
    if reads(subcommand, "diff") {
        let rest = vstd::slice::slice_subrange(args, 1, args.len());
        assert(rest.deep_view() =~= args.deep_view().skip(1));
        run_diff(rest)
    } else if reads(subcommand, "help") || reads(subcommand, "--help") || reads(subcommand, "-h") {
        CommandStep::Exit { stderr: view_help(), code: 0 }
    } else {
        let mut stderr: Vec<String> = Vec::new();
        stderr.push(String::from_str("unknown subcommand: ").concat(subcommand.as_str()));
        push_view_help(&mut stderr);
        assert(stderr.deep_view() =~= seq!["unknown subcommand: "@ + subcommand@] + help());
        CommandStep::Exit { stderr, code: 2 }
    }
}

/// The lines that tell how the command is used.
pub fn view_help() -> (lines: Vec<String>)
    ensures
        lines.deep_view() == help(),
{
    let mut lines: Vec<String> = Vec::new();
    push_view_help(&mut lines);
    assert(lines.deep_view() =~= help());
    lines
}

fn push_view_help(out: &mut Vec<String>)
    ensures
        final(out).deep_view() == old(out).deep_view() + help(),
{
    let ghost before = out.deep_view();
    out.push(String::from_str("usage: herdr view <subcommand> [args...]"));
    out.push(String::from_str(""));
    out.push(String::from_str("subcommands:"));
    out.push(
        String::from_str("  diff [--baseline <ref>]  Convert the current pane to a diff view"),
    );
    assert(out.deep_view() =~= before + help());
}

fn complain(line: String) -> (step: CommandStep)
    ensures
        step.deep_view() == complaint(line@),
{
    let mut stderr: Vec<String> = Vec::new();
    stderr.push(line);
    assert(stderr.deep_view() =~= seq![line@]);
    CommandStep::Exit { stderr, code: 2 }
}

/// Starts `view diff`.
pub fn run_diff(args: &[String]) -> (step: CommandStep)
    ensures
        step.deep_view() == diff_started(args.deep_view()),
{
    match parse_baseline_arg(args) {
        Ok(baseline) => CommandStep::ReadPaneId { baseline },
        Err(message) => complain(message),
    }
}

/// Goes on once the pane's identity was looked up in the environment variable
/// `variable`.
pub fn with_pane_id(baseline: Option<String>, pane_id: Option<String>, variable: &str) -> (step:
    CommandStep)
    ensures
        step.deep_view() == pane_looked_up(optional(baseline), optional(pane_id), variable@),
{
    match pane_id {
        Some(pane_id) => CommandStep::ProbeRepository { baseline, pane_id },
        None => {
            let mut line = String::from_str("not running inside a herdr pane (set $");
            line.append(variable);
            line.append(" to opt in manually)");
            complain(line)
        },
    }
}

/// Goes on once `git` was asked whether `cwd` is in a repository.
pub fn with_repository(
    baseline: Option<String>,
    pane_id: String,
    cwd: &str,
    is_repository: bool,
) -> (step: CommandStep)
    ensures
        step.deep_view() == repository_looked_up(
            optional(baseline),
            pane_id@,
            cwd@,
            is_repository,
        ),
{
    if !is_repository {
        return complain(String::from_str("not a git repository: ").concat(cwd));
    }
    CommandStep::Send(
        DiffRequest { id: String::from_str("cli:view:diff"), pane_id, baseline, scope: None },
    )
}

/// The arguments to ask `git` with whether a directory is in a repository.
pub fn git_dir_args() -> (args: Vec<String>)
    ensures
        args.deep_view() == seq!["rev-parse"@, "--git-dir"@],
{
    let mut args: Vec<String> = Vec::new();
    args.push(String::from_str("rev-parse"));
    args.push(String::from_str("--git-dir"));
    assert(args.deep_view() =~= seq!["rev-parse"@, "--git-dir"@]);
    args
}

/// The baseline that the arguments of `view diff` ask for, if any.
pub fn parse_baseline_arg(args: &[String]) -> (baseline: Result<Option<String>, String>)
    ensures
        match baseline {
            Ok(baseline) => baseline_of(args.deep_view(), None) == Ok::<_, Seq<char>>(
                optional(baseline),
            ),
            Err(message) => baseline_of(args.deep_view(), None) == Err::<Option<Seq<char>>, _>(
                message@,
            ),
        },
{
    let ghost all = args.deep_view();
    let mut baseline: Option<String> = None;
    let mut index: usize = 0;
    assert(all.skip(0) =~= all);
    while index < args.len()
        invariant
            all == args.deep_view(),
            index <= args@.len(),
            baseline_of(all, None) == baseline_of(all.skip(index as int), optional(baseline)),
        decreases args@.len() - index,
    {
        let ghost rest = all.skip(index as int);
        assert(rest[0] == args@[index as int]@);
        if !reads(&args[index], "--baseline") {
            return Err(String::from_str("unknown argument: ").concat(args[index].as_str()));
        }
        if args.len() - index < 2 {
            return Err(String::from_str("missing value for --baseline"));
        }
        assert(rest[1] == args@[index + 1]@);
        assert(rest.skip(2) =~= all.skip(index + 2));
        baseline = Some(args[index + 1].clone());
        index = index + 2;
    }
    Ok(baseline)
}

} // verus!

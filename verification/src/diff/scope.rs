//! Which changes a diff view shows, and the `git` command lines for them.
use vstd::prelude::*;

verus! {

/// What slice of the working tree to diff against the baseline.
#[derive(Debug, Clone, Copy, PartialEq, Eq, Structural)]
pub enum DiffScope {
    /// `git diff <baseline>`: everything between baseline and worktree.
    All,
    /// `git diff`: unstaged changes only.
    Unstaged,
    /// `git diff --cached`: staged but not committed.
    Staged,
    /// `git diff <baseline>..HEAD`: committed since baseline.
    Committed,
}

/// The scope that follows `scope` in the cycle.
pub open spec fn next_scope(scope: DiffScope) -> DiffScope {
    match scope {
        DiffScope::All => DiffScope::Unstaged,
        DiffScope::Unstaged => DiffScope::Staged,
        DiffScope::Staged => DiffScope::Committed,
        DiffScope::Committed => DiffScope::All,
    }
}

pub open spec fn scope_label(scope: DiffScope) -> Seq<char> {
    match scope {
        DiffScope::All => "all"@,
        DiffScope::Unstaged => "unstaged"@,
        DiffScope::Staged => "staged"@,
        DiffScope::Committed => "committed"@,
    }
}

impl DiffScope {
    pub fn next(self) -> (scope: Self)
        ensures
            scope == next_scope(self),
    {
        match self {
            DiffScope::All => DiffScope::Unstaged,
            DiffScope::Unstaged => DiffScope::Staged,
            DiffScope::Staged => DiffScope::Committed,
            DiffScope::Committed => DiffScope::All,
        }
    }

    pub fn label(self) -> (label: &'static str)
        ensures
            label@ == scope_label(self),
    {
        match self {
            DiffScope::All => "all",
            DiffScope::Unstaged => "unstaged",
            DiffScope::Staged => "staged",
            DiffScope::Committed => "committed",
        }
    }
}

/// The cycle passes through every scope: from any scope, any other is reached
/// in at most three steps, and the fourth step is back at the start.
pub proof fn lemma_scope_cycle(from: DiffScope, to: DiffScope)
    ensures
        next_scope(next_scope(next_scope(next_scope(from)))) == from,
        to == from || to == next_scope(from) || to == next_scope(next_scope(from)) || to
            == next_scope(next_scope(next_scope(from))),
{
}

/// No two scopes share a label.
pub proof fn lemma_scope_labels_differ(a: DiffScope, b: DiffScope)
    requires
        a != b,
    ensures
        scope_label(a) != scope_label(b),
{
    reveal_strlit("all");
    reveal_strlit("unstaged");
    reveal_strlit("staged");
    reveal_strlit("committed");
    let x = scope_label(a);
    let y = scope_label(b);
    assert(x.len() != y.len() || x[0] != y[0]);
}

/// The arguments that make `git` print the diff for `scope`.
pub open spec fn diff_args(scope: DiffScope, baseline: Seq<char>) -> Seq<Seq<char>> {
    match scope {
        DiffScope::All => seq!["diff"@, baseline],
        DiffScope::Unstaged => seq!["diff"@],
        DiffScope::Staged => seq!["diff"@, "--cached"@],
        DiffScope::Committed => seq!["diff"@, baseline + "..HEAD"@],
    }
}

/// What each scope compares: the baseline with the working tree, the index with the
/// working tree, the index with the last commit, the baseline with the last commit.
pub proof fn lemma_scope_arguments(baseline: Seq<char>)
    ensures
        diff_args(DiffScope::All, baseline) == seq!["diff"@, baseline],
        diff_args(DiffScope::Unstaged, baseline) == seq!["diff"@],
        diff_args(DiffScope::Staged, baseline) == seq!["diff"@, "--cached"@],
        diff_args(DiffScope::Committed, baseline) == seq!["diff"@, baseline + "..HEAD"@],
{
    assert(diff_args(DiffScope::All, baseline) =~= seq!["diff"@, baseline]);
    assert(diff_args(DiffScope::Unstaged, baseline) =~= seq!["diff"@]);
    assert(diff_args(DiffScope::Staged, baseline) =~= seq!["diff"@, "--cached"@]);
    assert(diff_args(DiffScope::Committed, baseline) =~= seq!["diff"@, baseline + "..HEAD"@]);
}

pub fn scope_args(scope: DiffScope, baseline: &str) -> (args: Vec<String>)
    ensures
        args.deep_view() == diff_args(scope, baseline@),
{
    let mut args: Vec<String> = Vec::new();
    args.push(String::from_str("diff"));
    match scope {
        DiffScope::All => {
            args.push(String::from_str(baseline));
        },
        DiffScope::Unstaged => {},
        DiffScope::Staged => {
            args.push(String::from_str("--cached"));
        },
        DiffScope::Committed => {
            args.push(String::from_str(baseline).concat("..HEAD"));
        },
    }
    assert(args.deep_view() =~= diff_args(scope, baseline@));
    args
}

// ---------------------------------------------------------------------------
// The baseline
// ---------------------------------------------------------------------------

/// The branches that serve as a baseline when none is given, in the order in
/// which they are tried.
pub open spec fn candidates() -> Seq<Seq<char>> {
    seq!["main"@, "master"@]
}

/// The arguments that make `git` tell whether the branch `name` exists.
pub open spec fn probe_args(name: Seq<char>) -> Seq<Seq<char>> {
    seq!["rev-parse"@, "--verify"@, "refs/heads/"@ + name]
}

/// What to do next in the search for a baseline.
#[derive(Debug, PartialEq, Eq)]
pub enum BaselineStep {
    /// Run `git` with these arguments and report whether it succeeded.
    Probe { args: Vec<String> },
    /// This branch exists.
    Found(String),
    /// No candidate exists.
    NotFound,
}

/// The index of the first candidate from `from` on that was found to exist.
pub open spec fn first_success(replies: Seq<bool>, from: int) -> Option<int>
    decreases replies.len() - from,
{
    if from < 0 || from >= replies.len() || from >= candidates().len() {
        None
    } else if replies[from] {
        Some(from)
    } else {
        first_success(replies, from + 1)
    }
}

/// The first branch found to exist is taken: `main` if it does, `master` if only that
/// does, and none if neither does. Each is asked for by its full name.
pub proof fn lemma_first_branch_counts(replies: Seq<bool>)
    ensures
        candidates() == seq!["main"@, "master"@],
        probe_args("main"@) == seq!["rev-parse"@, "--verify"@, "refs/heads/"@ + "main"@],
        probe_args("master"@) == seq!["rev-parse"@, "--verify"@, "refs/heads/"@ + "master"@],
        replies.len() > 0 && replies[0] ==> first_success(replies, 0) == Some(0int),
        replies.len() > 1 && !replies[0] && replies[1] ==> first_success(replies, 0) == Some(1int),
        (replies.len() == 0 || !replies[0]) && (replies.len() <= 1 || !replies[1])
            ==> first_success(replies, 0) is None,
{
    reveal_with_fuel(first_success, 4);
}

/// Searches for the default baseline. `replies` says of each candidate that
/// was probed so far, in order, whether it exists; the first that does is the
/// baseline, and as long as none does the next candidate is to be probed.
pub fn detect_default_baseline(replies: &[bool]) -> (step: BaselineStep)
    ensures
        match step {
            BaselineStep::Found(name) => {
                &&& first_success(replies@, 0) matches Some(i)
                &&& name@ == candidates()[i]
            },
            BaselineStep::Probe { args } => {
                &&& first_success(replies@, 0) is None
                &&& replies@.len() < candidates().len()
                &&& args.deep_view() == probe_args(candidates()[replies@.len() as int])
            },
            BaselineStep::NotFound => {
                &&& first_success(replies@, 0) is None
                &&& replies@.len() >= candidates().len()
            },
        },
{
    let names: [&str; 2] = ["main", "master"];
    let probed: usize = if replies.len() < 2 {
        replies.len()
    } else {
        2
    };
    for i in 0..probed
        invariant
            probed <= replies@.len(),
            probed <= candidates().len(),
            names@.len() == 2,
            names@[0]@ == candidates()[0],
            names@[1]@ == candidates()[1],
            first_success(replies@, 0) == first_success(replies@, i as int),
    {
        if replies[i] {
            return BaselineStep::Found(String::from_str(names[i]));
        }
    }
    if probed < 2 {
        let mut args: Vec<String> = Vec::new();
        args.push(String::from_str("rev-parse"));
        args.push(String::from_str("--verify"));
        args.push(String::from_str("refs/heads/").concat(names[probed]));
        assert(args.deep_view() =~= probe_args(candidates()[replies@.len() as int]));
        BaselineStep::Probe { args }
    } else {
        BaselineStep::NotFound
    }
}

// ---------------------------------------------------------------------------
// Options
// ---------------------------------------------------------------------------

#[derive(Debug, PartialEq, Eq)]
pub struct DiffViewOptions {
    pub baseline: String,
    pub scope: DiffScope,
}

/// What [`DiffViewOptions`] hold.
#[verifier::ext_equal]
pub struct OptionsModel {
    pub baseline: Seq<char>,
    pub scope: DiffScope,
}

impl View for DiffViewOptions {
    type V = OptionsModel;

    open spec fn view(&self) -> OptionsModel {
        OptionsModel { baseline: self.baseline@, scope: self.scope }
    }
}

impl Clone for DiffViewOptions {
    fn clone(&self) -> (copy: Self)
        ensures
            copy@ == self@,
    {
        DiffViewOptions { baseline: self.baseline.clone(), scope: self.scope }
    }
}

impl DiffViewOptions {
    /// Build options from a CLI/snapshot request. `detected` is the default
    /// baseline of the repository, which counts only when no baseline was
    /// supplied. Returns `None` if there is neither (caller should surface a
    /// clear error in that case).
    pub fn resolve(
        baseline: Option<String>,
        detected: Option<String>,
        scope: Option<DiffScope>,
    ) -> (options: Option<Self>)
        ensures
            options is None <==> baseline is None && detected is None,
            options matches Some(o) ==> {
                &&& o.baseline@ == (if let Some(given) = baseline {
                    given@
                } else {
                    detected->0@
                })
                &&& o.scope == (if let Some(asked) = scope {
                    asked
                } else {
                    DiffScope::All
                })
            },
    {
        let baseline = match baseline {
            Some(given) => given,
            None => match detected {
                Some(found) => found,
                None => return None,
            },
        };
        let scope = match scope {
            Some(asked) => asked,
            None => DiffScope::All,
        };
        Some(DiffViewOptions { baseline, scope })
    }
}

} // verus!

use vstd::prelude::*;

use crate::text::{chars_of, push_chars, text_of};

verus! {

/// The steps of a commit, in the order they run.
#[derive(Clone, Copy, Debug, PartialEq, Eq, Structural)]
pub enum CommitStep {
    /// Write the new text to a fresh snapshot in the history directory.
    WriteSnapshot,
    /// Read the snapshot back and check it.
    VerifySnapshot,
    /// Delete the oldest snapshots beyond the bound.
    CleanupHistory,
    /// Write the new text to the temporary sibling of the hosts file.
    WriteTemp,
    /// Rename the temporary file over the hosts file.
    Rename,
    /// Ask the platform to flush its name cache.
    FlushCache,
}

/// Where a commit stands after a step.
#[derive(Clone, Copy, Debug, PartialEq, Eq, Structural)]
pub enum Progress {
    /// Run this step next.
    Next(CommitStep),
    /// Every step succeeded.
    Done,
    /// This step failed; nothing after it ran.
    Failed(CommitStep),
    /// The hosts file is published, but the cache flush failed.
    FlushFailed,
}

/// Why a commit cannot be planned.
#[derive(Clone, Copy, Debug, PartialEq, Eq, Structural)]
pub enum PlanError {
    /// The hosts file lies inside the history directory, where cleanup may delete it.
    TargetInHistory,
}

/// A commit of `content` to `target`, with its snapshot kept in `history_dir` if there is one.
pub struct CommitPlan {
    pub content: String,
    pub target: String,
    /// The sibling of `target` that is written before the rename.
    pub temp: String,
    pub history_dir: Option<String>,
    pub max_history_entries: usize,
}

/// `p` names a file inside the directory `d`.
pub open spec fn under(p: Seq<char>, d: Seq<char>) -> bool {
    p.len() > d.len() && p.subrange(0, d.len() as int) == d && p[d.len() as int] == '/'
}

/// The temporary sibling of a path.
pub open spec fn temp_of(target: Seq<char>) -> Seq<char> {
    target + ".tmp"@
}

impl CommitPlan {
    pub open spec fn wf(&self) -> bool {
        &&& self.temp@ == temp_of(self.target@)
        &&& self.history_dir matches Some(d) ==> !under(self.target@, d@) && !under(self.temp@, d@)
    }

    /// The steps of this commit, in order: the history steps only where history is kept.
    pub open spec fn steps(&self) -> Seq<CommitStep> {
        if self.history_dir is Some {
            seq![
                CommitStep::WriteSnapshot,
                CommitStep::VerifySnapshot,
                CommitStep::CleanupHistory,
                CommitStep::WriteTemp,
                CommitStep::Rename,
                CommitStep::FlushCache,
            ]
        } else {
            seq![CommitStep::WriteTemp, CommitStep::Rename, CommitStep::FlushCache]
        }
    }

    /// Plans a commit; fails if the hosts file or its temporary sibling lies inside the
    /// history directory.
    pub fn new(content: String, target: String, history_dir: Option<String>, max_history_entries: usize) -> (r: Result<CommitPlan, PlanError>)
        ensures
            match r {
                Ok(p) => p.wf() && p.content == content && p.target == target && p.history_dir
                    == history_dir && p.max_history_entries == max_history_entries,
                Err(PlanError::TargetInHistory) => history_dir matches Some(d) && (under(target@, d@)
                    || under(temp_of(target@), d@)),
            },
    {
        let temp = temp_path_for(target.as_str());
        match &history_dir {
            Some(d) => {
                if is_under(target.as_str(), d.as_str()) || is_under(temp.as_str(), d.as_str()) {
                    return Err(PlanError::TargetInHistory);
                }
            },
            None => {},
        }
        Ok(CommitPlan { content, target, temp, history_dir, max_history_entries })
    }

    /// The first step to run.
    pub fn first_step(&self) -> (r: CommitStep)
        ensures
            r == self.steps()[0],
    {
        if self.history_dir.is_some() {
            CommitStep::WriteSnapshot
        } else {
            CommitStep::WriteTemp
        }
    }

    /// What follows `step` of this commit, given whether it succeeded: the next step, or the
    /// end. A failure ends the commit at that step, except that a failed cache flush leaves
    /// the hosts file published.
    pub fn advance(&self, step: CommitStep, succeeded: bool) -> (r: Progress)
        requires
            self.steps().contains(step),
        ensures
            !succeeded && step != CommitStep::FlushCache ==> r == Progress::Failed(step),
            !succeeded && step == CommitStep::FlushCache ==> r == Progress::FlushFailed,
            succeeded ==> forall|i: int|
                0 <= i < self.steps().len() && #[trigger] self.steps()[i] == step ==> r == if i + 1 < self.steps().len() {
                    Progress::Next(self.steps()[i + 1])
                } else {
                    Progress::Done
                },
    {
        if !succeeded {
            return match step {
                CommitStep::FlushCache => Progress::FlushFailed,
                _ => Progress::Failed(step),
            };
        }
        match step {
            CommitStep::WriteSnapshot => Progress::Next(CommitStep::VerifySnapshot),
            CommitStep::VerifySnapshot => Progress::Next(CommitStep::CleanupHistory),
            CommitStep::CleanupHistory => Progress::Next(CommitStep::WriteTemp),
            CommitStep::WriteTemp => Progress::Next(CommitStep::Rename),
            CommitStep::Rename => Progress::Next(CommitStep::FlushCache),
            CommitStep::FlushCache => Progress::Done,
        }
    }
}

/// The temporary sibling of a hosts file: its path with `.tmp` appended.
pub fn temp_path_for(target: &str) -> (r: String)
    ensures
        r@ == temp_of(target@),
{
    let mut out: Vec<char> = Vec::new();
    push_chars(&mut out, target);
    push_chars(&mut out, ".tmp");
    text_of(out.as_slice())
}

/// Whether the path `p` names a file inside the directory `d`.
pub fn is_under(p: &str, d: &str) -> (r: bool)
    ensures
        r == under(p@, d@),
{
    let pv = chars_of(p);
    let dv = chars_of(d);
    if pv.len() <= dv.len() {
        return false;
    }
    let mut i: usize = 0;
    while i < dv.len()
        invariant
            i <= dv@.len() < pv@.len(),
            pv@ == p@,
            dv@ == d@,
            forall|k: int| 0 <= k < i ==> pv@[k] == dv@[k],
        decreases dv@.len() - i,
    {
        if pv[i] != dv[i] {
            assert(pv@.subrange(0, dv@.len() as int)[i as int] != dv@[i as int]);
            return false;
        }
        i = i + 1;
    }
    assert(pv@.subrange(0, dv@.len() as int) =~= dv@);
    pv[dv.len()] == '/'
}

/// Files by path, and their contents.
pub type Files = Map<Seq<char>, Seq<char>>;

/// What a step of `plan` may do to the files: `before` and `after` are the files around it.
/// The snapshot step adds one new file inside the history directory, holding the new text;
/// the cleanup step changes only files inside that directory; the temporary write sets the
/// temporary file; the rename moves it over the hosts file.
pub open spec fn step_effect(plan: CommitPlan, step: CommitStep, before: Files, after: Files) -> bool {
    match step {
        CommitStep::WriteSnapshot => plan.history_dir matches Some(d) && exists|p: Seq<char>|
            under(p, d@) && !before.contains_key(p) && after == before.insert(p, plan.content@),
        CommitStep::CleanupHistory => plan.history_dir matches Some(d)
            && forall|p: Seq<char>|
            !under(p, d@) ==> (#[trigger] after.contains_key(p) == before.contains_key(p) && (
            before.contains_key(p) ==> after[p] == before[p])),
        CommitStep::VerifySnapshot | CommitStep::FlushCache => after == before,
        CommitStep::WriteTemp => after == before.insert(plan.temp@, plan.content@),
        CommitStep::Rename => before.contains_key(plan.temp@) && after == before.remove(
            plan.temp@,
        ).insert(plan.target@, before[plan.temp@]),
    }
}

/// `runs` are the files before the commit and after each of its first `runs.len() - 1` steps.
pub open spec fn follows(plan: CommitPlan, runs: Seq<Files>) -> bool {
    &&& 1 <= runs.len() <= plan.steps().len() + 1
    &&& forall|i: int|
        0 <= i < runs.len() - 1 ==> step_effect(plan, plan.steps()[i], #[trigger] runs[i], runs[i + 1])
}

/// The position of the rename among the steps of `plan`.
pub open spec fn rename_at(plan: CommitPlan) -> int {
    if plan.history_dir is Some {
        4
    } else {
        1
    }
}

/// Publishing is atomic: however far a commit gets before its rename, the hosts file is as
/// it was (present or absent, and the same text); once the rename has run, it holds exactly
/// the new text.
pub proof fn lemma_publish_is_atomic(plan: CommitPlan, runs: Seq<Files>)
    requires
        plan.wf(),
        follows(plan, runs),
    ensures
        runs.len() - 1 <= rename_at(plan) ==> runs.last().contains_key(plan.target@) == runs[0].contains_key(
            plan.target@,
        ) && (runs[0].contains_key(plan.target@) ==> runs.last()[plan.target@] == runs[0][plan.target@]),
        runs.len() - 1 > rename_at(plan) ==> runs.last().contains_key(plan.target@) && runs.last()[plan.target@]
            == plan.content@,
    decreases runs.len(),
{
    let t = plan.target@;
    assert(plan.temp@ != t) by {
        assert(plan.temp@.len() == t.len() + ".tmp"@.len());
        reveal_strlit(".tmp");
    }
    if runs.len() > 1 {
        let prev = runs.drop_last();
        assert forall|i: int| 0 <= i < prev.len() - 1 implies step_effect(
            plan,
            plan.steps()[i],
            #[trigger] prev[i],
            prev[i + 1],
        ) by {
            assert(prev[i] == runs[i] && prev[i + 1] == runs[i + 1]);
        }
        lemma_publish_is_atomic(plan, prev);
        let k = runs.len() - 2;
        let step = plan.steps()[k];
        assert(step_effect(plan, step, runs[k], runs[k + 1]));
        assert(prev.last() == runs[k]);
        if k < rename_at(plan) {
            match step {
                CommitStep::WriteSnapshot => {
                    let d = plan.history_dir->0;
                    assert(!under(t, d@));
                    let p = choose|p: Seq<char>|
                        under(p, d@) && !runs[k].contains_key(p) && runs[k + 1] == runs[k].insert(p, plan.content@);
                    assert(p != t);
                },
                CommitStep::CleanupHistory => {
                    let d = plan.history_dir->0;
                    assert(!under(t, d@));
                    assert(runs[k + 1].contains_key(t) == runs[k].contains_key(t));
                },
                _ => {},
            }
        } else if k == rename_at(plan) {
            assert(step == CommitStep::Rename);
            let w = k - 1;
            assert(plan.steps()[w] == CommitStep::WriteTemp);
            assert(step_effect(plan, CommitStep::WriteTemp, runs[w], runs[w + 1]));
            assert(runs[k] == runs[w + 1]);
            assert(runs[k][plan.temp@] == plan.content@);
        } else {
            assert(step == CommitStep::FlushCache);
        }
    }
}

/// A commit that keeps history first writes exactly one new file, inside the history
/// directory, holding the new text.
pub proof fn lemma_snapshot_holds_content(plan: CommitPlan, runs: Seq<Files>)
    requires
        follows(plan, runs),
        plan.history_dir is Some,
        runs.len() >= 2,
    ensures
        exists|p: Seq<char>|
            under(p, plan.history_dir->0@) && !runs[0].contains_key(p) && runs[1] == runs[0].insert(
                p,
                plan.content@,
            ),
{
    assert(plan.steps()[0] == CommitStep::WriteSnapshot);
    assert(step_effect(plan, plan.steps()[0], runs[0], runs[1]));
}

/// A commit without history changes no file but the hosts file and its temporary sibling.
pub proof fn lemma_no_history_touches_only_target(plan: CommitPlan, runs: Seq<Files>, p: Seq<char>)
    requires
        follows(plan, runs),
        plan.history_dir is None,
        p != plan.target@,
        p != plan.temp@,
    ensures
        runs.last().contains_key(p) == runs[0].contains_key(p),
        runs[0].contains_key(p) ==> runs.last()[p] == runs[0][p],
    decreases runs.len(),
{
    if runs.len() > 1 {
        let prev = runs.drop_last();
        assert forall|i: int| 0 <= i < prev.len() - 1 implies step_effect(
            plan,
            plan.steps()[i],
            #[trigger] prev[i],
            prev[i + 1],
        ) by {
            assert(prev[i] == runs[i] && prev[i + 1] == runs[i + 1]);
        }
        lemma_no_history_touches_only_target(plan, prev, p);
        let k = runs.len() - 2;
        assert(step_effect(plan, plan.steps()[k], runs[k], runs[k + 1]));
        assert(prev.last() == runs[k]);
    }
}

} // verus!

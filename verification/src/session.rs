//! One invocation of the runner: the mode it runs in, the verdict on each
//! file it was given, and what a failure means for the files that remain.
//!
//! A file named explicitly is run alone, and a document that cannot be read
//! or executed is a hard failure of the invocation. A directory is scanned
//! and every test document in it is run: a failure is recorded and the scan
//! goes on.

use vstd::prelude::*;
use crate::model::{lemma_views_push, views};
use crate::run::{FileOutcome, FileVerdict, FileVerdictView};

verus! {

/// How an invocation treats what it was given.
#[derive(Debug, Clone, Copy, PartialEq, Eq, Structural)]
pub enum Mode {
    /// One file, named by the caller.
    SingleFile,
    /// Every test document under a directory.
    DirectoryScan,
}

/// What to do after a file's verdict.
#[derive(Debug, Clone, Copy, PartialEq, Eq, Structural)]
pub enum Decision {
    /// Go on with the next file.
    Continue,
    /// Stop: the invocation has failed.
    Abort,
}

/// The mode for a target given on the command line: a target that exists is
/// run as a single file; otherwise the working directory is scanned.
pub fn mode_for(target_exists: bool) -> (m: Mode)
    ensures
        m == if target_exists {
            Mode::SingleFile
        } else {
            Mode::DirectoryScan
        },
{
    if target_exists {
        Mode::SingleFile
    } else {
        Mode::DirectoryScan
    }
}

/// The document could not be read, or a step of it could not be executed.
pub open spec fn is_fatal(outcome: FileOutcome) -> bool {
    outcome == FileOutcome::ParseFailed || outcome == FileOutcome::Aborted
}

/// What follows a verdict with this outcome: only a fatal outcome of a
/// file run alone stops the invocation.
pub open spec fn decision_for(mode: Mode, outcome: FileOutcome) -> Decision {
    if mode == Mode::SingleFile && is_fatal(outcome) {
        Decision::Abort
    } else {
        Decision::Continue
    }
}

/// Some file did not pass.
pub open spec fn any_failed(verdicts: Seq<FileVerdictView>) -> bool {
    exists|i: int| 0 <= i < verdicts.len() && (#[trigger] verdicts[i]).outcome != FileOutcome::Passed
}

/// The verdicts of one invocation, in the order in which the files ran.
pub struct Session {
    mode: Mode,
    verdicts: Vec<FileVerdict>,
}

/// The mathematical value of a `Session`.
pub struct SessionView {
    pub mode: Mode,
    pub verdicts: Seq<FileVerdictView>,
}

impl View for Session {
    type V = SessionView;

    closed spec fn view(&self) -> SessionView {
        SessionView { mode: self.mode, verdicts: views(self.verdicts@) }
    }
}

impl Session {
    /// An invocation in which no file has run yet.
    pub fn new(mode: Mode) -> (s: Session)
        ensures
            s@ == (SessionView { mode, verdicts: Seq::empty() }),
    {
        let s = Session { mode, verdicts: Vec::new() };
        assert(s@.verdicts =~= Seq::<FileVerdictView>::empty());
        s
    }

    /// The mode of the invocation.
    pub fn mode(&self) -> (m: Mode)
        ensures
            m == self@.mode,
    {
        self.mode
    }

    /// The verdicts collected so far.
    pub fn verdicts(&self) -> (v: &Vec<FileVerdict>)
        ensures
            views(v@) == self@.verdicts,
    {
        &self.verdicts
    }

    /// Collects the verdict on a file, whatever it is, and says whether the
    /// invocation goes on. A scan always goes on.
    pub fn collect(&mut self, verdict: FileVerdict) -> (d: Decision)
        ensures
            final(self)@ == (SessionView {
                mode: old(self)@.mode,
                verdicts: old(self)@.verdicts.push(verdict@),
            }),
            d == decision_for(old(self)@.mode, verdict@.outcome),
            old(self)@.mode == Mode::DirectoryScan ==> d == Decision::Continue,
    {
        let fatal: bool = verdict.outcome == FileOutcome::ParseFailed || verdict.outcome
            == FileOutcome::Aborted;
        proof {
            lemma_views_push(self.verdicts@, verdict);
        }
        self.verdicts.push(verdict);
        if self.mode == Mode::SingleFile && fatal {
            Decision::Abort
        } else {
            Decision::Continue
        }
    }

    /// Whether the invocation as a whole has failed: some file did not
    /// pass.
    pub fn failed(&self) -> (r: bool)
        ensures
            r == any_failed(self@.verdicts),
    {
        let mut k: usize = 0;
        while k < self.verdicts.len()
            invariant
                k <= self.verdicts.len(),
                forall|i: int| 0 <= i < k ==> self.verdicts@[i].outcome == FileOutcome::Passed,
            decreases self.verdicts.len() - k,
        {
            if self.verdicts[k].outcome != FileOutcome::Passed {
                assert(self@.verdicts[k as int] == self.verdicts@[k as int]@);
                return true;
            }
            k += 1;
        }
        assert forall|i: int| 0 <= i < self@.verdicts.len() implies (
        #[trigger] self@.verdicts[i]).outcome == FileOutcome::Passed by {
            assert(self@.verdicts[i] == self.verdicts@[i]@);
        }
        false
    }
}

} // verus!

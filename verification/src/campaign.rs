//! Book-keeping of a fuzzing campaign: how many IR pairs were produced, how
//! many attempts were spent, and which iterations showed a fusion or a bug.
//!
//! The driver performs each step (generating IR, running the optimizer, the
//! validator and the compiled programs) and reports its outcome here; which
//! step comes next for an IR pair is decided by `next_pair_step`.

use vstd::prelude::*;

verus! {

/// What happened to an IR pair after the back-edge was added.
#[derive(Clone, Copy, Debug, PartialEq, Eq)]
pub enum PairOutcome {
    /// No optimizer was given: the pair was only written out.
    Generated,
    /// The optimizer failed.
    OptError,
    /// Loop fusion did not change the IR.
    NotFired,
    /// Loop fusion fired and no validator was given.
    Fired,
    /// Fusion fired, the validator accepted it, and no compiler was given.
    Verified,
    /// Fusion fired and was validated; both programs printed the same.
    VerifiedExecMatch,
    /// Fusion fired and was validated, but the programs' outputs differ.
    VerifiedExecBug,
    /// Fusion fired and was validated; compiling or running failed.
    VerifiedExecError,
    /// Fusion fired but the validator rejected it.
    AliveRejected,
    /// Fusion fired but the validator could not be run.
    AliveError,
}

/// Which of the optional tools were given.
#[derive(Clone, Copy, Debug)]
pub struct ToolSet {
    /// The optimizer that runs loop fusion.
    pub opt: bool,
    /// The refinement checker that validates a fusion.
    pub alive: bool,
    /// The compiler used to run both programs.
    pub clang: bool,
}

/// What the last step for an IR pair reported.
#[derive(Clone, Copy, Debug, PartialEq, Eq)]
pub enum StepReport {
    /// The IR pair was written out.
    Written,
    /// The optimizer failed.
    OptFailed,
    /// Loop fusion left the IR unchanged.
    FusionNotFired,
    /// Loop fusion changed the IR.
    FusionFired,
    /// The validator accepted the fusion.
    ValidatorAccepted,
    /// The validator rejected the fusion.
    ValidatorRejected,
    /// The validator could not be run.
    ValidatorFailed,
    /// Both programs printed the same.
    OutputsMatch,
    /// The programs printed different outputs.
    OutputsDiffer,
    /// Compiling or running the programs failed.
    ProgramsFailed,
}

/// The next thing to do for an IR pair.
#[derive(Clone, Copy, Debug, PartialEq, Eq)]
pub enum PairStep {
    /// Run loop fusion on the pair.
    RunOpt,
    /// Validate the fusion.
    RunValidator,
    /// Compile and run both programs and compare their outputs.
    RunPrograms,
    /// Nothing more: the pair ends with this outcome.
    Done(PairOutcome),
}

/// The pipeline for one pair: write it, fuse it, validate the fusion, run
/// both programs; each stage is skipped when its tool was not given, and a
/// stage runs only after the one before it succeeded.
pub open spec fn pair_step(tools: ToolSet, report: StepReport) -> PairStep {
    match report {
        StepReport::Written => if tools.opt {
            PairStep::RunOpt
        } else {
            PairStep::Done(PairOutcome::Generated)
        },
        StepReport::OptFailed => PairStep::Done(PairOutcome::OptError),
        StepReport::FusionNotFired => PairStep::Done(PairOutcome::NotFired),
        StepReport::FusionFired => if tools.alive {
            PairStep::RunValidator
        } else {
            PairStep::Done(PairOutcome::Fired)
        },
        StepReport::ValidatorAccepted => if tools.clang {
            PairStep::RunPrograms
        } else {
            PairStep::Done(PairOutcome::Verified)
        },
        StepReport::ValidatorRejected => PairStep::Done(PairOutcome::AliveRejected),
        StepReport::ValidatorFailed => PairStep::Done(PairOutcome::AliveError),
        StepReport::OutputsMatch => PairStep::Done(PairOutcome::VerifiedExecMatch),
        StepReport::OutputsDiffer => PairStep::Done(PairOutcome::VerifiedExecBug),
        StepReport::ProgramsFailed => PairStep::Done(PairOutcome::VerifiedExecError),
    }
}

/// Decide the next step for an IR pair from what its last step reported.
pub fn next_pair_step(tools: &ToolSet, report: StepReport) -> (step: PairStep)
    ensures
        step == pair_step(*tools, report),
{
    match report {
        StepReport::Written => if tools.opt {
            PairStep::RunOpt
        } else {
            PairStep::Done(PairOutcome::Generated)
        },
        StepReport::OptFailed => PairStep::Done(PairOutcome::OptError),
        StepReport::FusionNotFired => PairStep::Done(PairOutcome::NotFired),
        StepReport::FusionFired => if tools.alive {
            PairStep::RunValidator
        } else {
            PairStep::Done(PairOutcome::Fired)
        },
        StepReport::ValidatorAccepted => if tools.clang {
            PairStep::RunPrograms
        } else {
            PairStep::Done(PairOutcome::Verified)
        },
        StepReport::ValidatorRejected => PairStep::Done(PairOutcome::AliveRejected),
        StepReport::ValidatorFailed => PairStep::Done(PairOutcome::AliveError),
        StepReport::OutputsMatch => PairStep::Done(PairOutcome::VerifiedExecMatch),
        StepReport::OutputsDiffer => PairStep::Done(PairOutcome::VerifiedExecBug),
        StepReport::ProgramsFailed => PairStep::Done(PairOutcome::VerifiedExecError),
    }
}

/// The reports that can only come after the validator accepted the fusion.
pub open spec fn after_acceptance(r: StepReport) -> bool {
    ||| r == StepReport::ValidatorAccepted
    ||| r == StepReport::OutputsMatch
    ||| r == StepReport::OutputsDiffer
    ||| r == StepReport::ProgramsFailed
}

/// Law: a tool is asked for only when it was given; the programs are run
/// only on a fusion the validator accepted; and when a validator is given,
/// only accepted fusions are counted, and a miscompilation is reported only
/// from differing outputs.
pub proof fn lemma_pair_pipeline(tools: ToolSet, report: StepReport)
    ensures
        pair_step(tools, report) == PairStep::RunOpt ==> tools.opt,
        pair_step(tools, report) == PairStep::RunValidator ==> tools.alive,
        pair_step(tools, report) == PairStep::RunPrograms ==> tools.clang && report
            == StepReport::ValidatorAccepted,
        tools.alive ==> (pair_step(tools, report) matches PairStep::Done(o) && counts_as_fusion(o)
            ==> after_acceptance(report)),
        pair_step(tools, report) matches PairStep::Done(o) && counts_as_bug(o) ==> report
            == StepReport::OutputsDiffer,
{
}

/// The outcome counts as a fusion: fired and not refuted by the validator.
pub open spec fn counts_as_fusion(o: PairOutcome) -> bool {
    match o {
        PairOutcome::Fired | PairOutcome::Verified | PairOutcome::VerifiedExecMatch
        | PairOutcome::VerifiedExecBug | PairOutcome::VerifiedExecError => true,
        _ => false,
    }
}

/// The outcome shows a miscompilation.
pub open spec fn counts_as_bug(o: PairOutcome) -> bool {
    o == PairOutcome::VerifiedExecBug
}

/// Law: the outcome with which the pipeline ends a pair counts as a fusion
/// hit exactly when loop fusion fired and the validator did not refute it:
/// the pipeline ended right after the fusion fired, or the validator
/// accepted it, whatever the compiled programs did afterwards (same output,
/// different output, or a failure to run).  It counts as a bug exactly when
/// the programs' outputs differed.
pub proof fn lemma_hits_follow_pipeline(tools: ToolSet, report: StepReport)
    ensures
        pair_step(tools, report) matches PairStep::Done(o) ==> (counts_as_fusion(o) <==> (report
            == StepReport::FusionFired || report == StepReport::ValidatorAccepted || report
            == StepReport::OutputsMatch || report == StepReport::OutputsDiffer || report
            == StepReport::ProgramsFailed)),
        pair_step(tools, report) matches PairStep::Done(o) ==> (counts_as_bug(o) <==> report
            == StepReport::OutputsDiffer),
{
}

/// The state of a campaign.
pub struct Campaign {
    /// Number of IR pairs wanted.
    pub iterations: usize,
    /// Attempts allowed: thirty per wanted pair.
    pub max_attempts: usize,
    /// IR pairs produced so far.
    pub done: usize,
    /// Attempts started so far.
    pub attempts: usize,
    /// Iterations whose fusion fired and was not refuted.
    pub fusion_hits: Vec<usize>,
    /// Iterations whose programs printed different outputs.
    pub exec_bugs: Vec<usize>,
}

/// `s` is strictly increasing and below `n`.
pub open spec fn increasing_below(s: Seq<usize>, n: usize) -> bool {
    &&& forall|i: int, j: int| 0 <= i < j < s.len() ==> s[i] < s[j]
    &&& forall|i: int| 0 <= i < s.len() ==> s[i] < n
}

impl Campaign {
    /// The campaign's invariant: counters within their limits, the recorded
    /// iterations increasing and already done, and every bug a counted fusion.
    pub open spec fn wf(&self) -> bool {
        &&& self.max_attempts == 30 * self.iterations
        &&& self.done <= self.iterations
        &&& self.attempts <= self.max_attempts
        &&& self.done <= self.attempts
        &&& increasing_below(self.fusion_hits@, self.done)
        &&& increasing_below(self.exec_bugs@, self.done)
        &&& forall|i: int| 0 <= i < self.exec_bugs@.len() ==> self.fusion_hits@.contains(
            #[trigger] self.exec_bugs@[i],
        )
    }

    /// A campaign for `iterations` pairs, with nothing done yet.
    pub fn new(iterations: usize) -> (c: Campaign)
        requires
            30 * iterations <= usize::MAX,
        ensures
            c.wf(),
            c.iterations == iterations,
            c.done == 0,
            c.attempts == 0,
            c.fusion_hits@ == Seq::<usize>::empty(),
            c.exec_bugs@ == Seq::<usize>::empty(),
    {
        Campaign {
            iterations,
            max_attempts: iterations * 30,
            done: 0,
            attempts: 0,
            fusion_hits: Vec::new(),
            exec_bugs: Vec::new(),
        }
    }

    /// Start another attempt if pairs are still wanted and attempts remain;
    /// returns whether one was started.
    pub fn start_attempt(&mut self) -> (started: bool)
        requires
            old(self).wf(),
        ensures
            final(self).wf(),
            started == (old(self).done < old(self).iterations && old(self).attempts
                < old(self).max_attempts),
            final(self).attempts == old(self).attempts + if started {
                1int
            } else {
                0int
            },
            final(self).iterations == old(self).iterations,
            final(self).done == old(self).done,
            final(self).fusion_hits@ == old(self).fusion_hits@,
            final(self).exec_bugs@ == old(self).exec_bugs@,
    {
        if self.done < self.iterations && self.attempts < self.max_attempts {
            self.attempts = self.attempts + 1;
            true
        } else {
            false
        }
    }

    /// Record the outcome of the pair produced by the current attempt.
    pub fn finish_pair(&mut self, outcome: PairOutcome)
        requires
            old(self).wf(),
            old(self).done < old(self).attempts,
            old(self).done < old(self).iterations,
        ensures
            final(self).wf(),
            final(self).done == old(self).done + 1,
            final(self).attempts == old(self).attempts,
            final(self).iterations == old(self).iterations,
            final(self).fusion_hits@ == if counts_as_fusion(outcome) {
                old(self).fusion_hits@.push(old(self).done)
            } else {
                old(self).fusion_hits@
            },
            final(self).exec_bugs@ == if counts_as_bug(outcome) {
                old(self).exec_bugs@.push(old(self).done)
            } else {
                old(self).exec_bugs@
            },
    {
        let d = self.done;
        let fusion = match outcome {
            PairOutcome::Fired | PairOutcome::Verified | PairOutcome::VerifiedExecMatch
            | PairOutcome::VerifiedExecBug | PairOutcome::VerifiedExecError => true,
            _ => false,
        };
        if fusion {
            self.fusion_hits.push(d);
        }
        let bug = match outcome {
            PairOutcome::VerifiedExecBug => true,
            _ => false,
        };
        if bug {
            self.exec_bugs.push(d);
            assert(self.fusion_hits@.contains(d)) by {
                assert(self.fusion_hits@[self.fusion_hits@.len() - 1] == d);
            }
        }
        assert forall|i: int| 0 <= i < self.exec_bugs@.len() implies self.fusion_hits@.contains(
            #[trigger] self.exec_bugs@[i],
        ) by {
            if i < old(self).exec_bugs@.len() {
                let w = choose|w: int|
                    0 <= w < old(self).fusion_hits@.len() && old(self).fusion_hits@[w]
                        == old(self).exec_bugs@[i];
                assert(self.fusion_hits@[w] == old(self).fusion_hits@[w]);
            } else {
                assert(self.fusion_hits@[self.fusion_hits@.len() - 1] == d);
            }
        }
        self.done = d + 1;
        assert(increasing_below(self.fusion_hits@, self.done));
        assert(increasing_below(self.exec_bugs@, self.done));
    }

    /// Whether fewer pairs than wanted were produced.
    pub fn fell_short(&self) -> (b: bool)
        ensures
            b == (self.done < self.iterations),
    {
        self.done < self.iterations
    }
}

} // verus!

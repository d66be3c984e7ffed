use eqsat_loop_fuzz::campaign::{next_pair_step, Campaign, PairOutcome, PairStep, StepReport, ToolSet};

#[test]
fn campaign_records_hits_and_bugs() {
    let mut c = Campaign::new(3);
    assert_eq!(c.max_attempts, 90);
    assert!(c.start_attempt());
    c.finish_pair(PairOutcome::Fired);
    assert!(c.start_attempt());
    c.finish_pair(PairOutcome::VerifiedExecBug);
    assert!(c.start_attempt());
    c.finish_pair(PairOutcome::AliveRejected);
    assert!(!c.start_attempt());
    assert_eq!(c.done, 3);
    assert_eq!(c.attempts, 3);
    assert_eq!(c.fusion_hits, vec![0, 1]);
    assert_eq!(c.exec_bugs, vec![1]);
    assert!(!c.fell_short());
}

#[test]
fn campaign_stops_after_thirty_attempts_per_pair() {
    let mut c = Campaign::new(1);
    for _ in 0..30 {
        assert!(c.start_attempt());
    }
    assert!(!c.start_attempt());
    assert_eq!(c.attempts, 30);
    assert!(c.fell_short());
}

#[test]
fn campaign_outcomes_without_fusion() {
    let mut c = Campaign::new(4);
    for o in [PairOutcome::Generated, PairOutcome::OptError, PairOutcome::NotFired, PairOutcome::AliveError] {
        assert!(c.start_attempt());
        c.finish_pair(o);
    }
    assert!(c.fusion_hits.is_empty());
    assert!(c.exec_bugs.is_empty());
    assert_eq!(c.done, 4);
}

#[test]
fn pipeline_with_all_tools() {
    let all = ToolSet { opt: true, alive: true, clang: true };
    assert_eq!(next_pair_step(&all, StepReport::Written), PairStep::RunOpt);
    assert_eq!(next_pair_step(&all, StepReport::FusionFired), PairStep::RunValidator);
    assert_eq!(next_pair_step(&all, StepReport::ValidatorAccepted), PairStep::RunPrograms);
    assert_eq!(
        next_pair_step(&all, StepReport::OutputsDiffer),
        PairStep::Done(PairOutcome::VerifiedExecBug)
    );
    assert_eq!(
        next_pair_step(&all, StepReport::OutputsMatch),
        PairStep::Done(PairOutcome::VerifiedExecMatch)
    );
    assert_eq!(
        next_pair_step(&all, StepReport::ProgramsFailed),
        PairStep::Done(PairOutcome::VerifiedExecError)
    );
    assert_eq!(
        next_pair_step(&all, StepReport::ValidatorRejected),
        PairStep::Done(PairOutcome::AliveRejected)
    );
    assert_eq!(
        next_pair_step(&all, StepReport::ValidatorFailed),
        PairStep::Done(PairOutcome::AliveError)
    );
    assert_eq!(next_pair_step(&all, StepReport::OptFailed), PairStep::Done(PairOutcome::OptError));
    assert_eq!(
        next_pair_step(&all, StepReport::FusionNotFired),
        PairStep::Done(PairOutcome::NotFired)
    );
}

#[test]
fn pipeline_skips_missing_tools() {
    let none = ToolSet { opt: false, alive: false, clang: false };
    assert_eq!(next_pair_step(&none, StepReport::Written), PairStep::Done(PairOutcome::Generated));
    let opt_only = ToolSet { opt: true, alive: false, clang: true };
    assert_eq!(next_pair_step(&opt_only, StepReport::FusionFired), PairStep::Done(PairOutcome::Fired));
    let no_clang = ToolSet { opt: true, alive: true, clang: false };
    assert_eq!(
        next_pair_step(&no_clang, StepReport::ValidatorAccepted),
        PairStep::Done(PairOutcome::Verified)
    );
}

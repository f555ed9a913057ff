use hostsguard::commit::{is_under, temp_path_for, CommitPlan, CommitStep, PlanError, Progress};

#[test]
fn plan_with_history_runs_every_step() {
    let plan = CommitPlan::new("t\n".to_string(), "/etc/hosts".to_string(), Some("/var/h".to_string()), 3)
        .ok()
        .unwrap();
    assert_eq!(plan.temp, "/etc/hosts.tmp");
    let mut step = plan.first_step();
    let mut seen = vec![step];
    loop {
        match plan.advance(step, true) {
            Progress::Next(s) => {
                seen.push(s);
                step = s;
            }
            Progress::Done => break,
            other => panic!("unexpected {:?}", other),
        }
    }
    assert_eq!(
        seen,
        vec![
            CommitStep::WriteSnapshot,
            CommitStep::VerifySnapshot,
            CommitStep::CleanupHistory,
            CommitStep::WriteTemp,
            CommitStep::Rename,
            CommitStep::FlushCache
        ]
    );
}

#[test]
fn plan_without_history_starts_at_the_temp_write() {
    let plan = CommitPlan::new(String::new(), "/etc/hosts".to_string(), None, 3).ok().unwrap();
    assert_eq!(plan.first_step(), CommitStep::WriteTemp);
    assert_eq!(plan.advance(CommitStep::WriteTemp, false), Progress::Failed(CommitStep::WriteTemp));
    assert_eq!(plan.advance(CommitStep::Rename, true), Progress::Next(CommitStep::FlushCache));
    assert_eq!(plan.advance(CommitStep::FlushCache, false), Progress::FlushFailed);
}

#[test]
fn target_inside_history_is_refused() {
    let r = CommitPlan::new(String::new(), "/var/h/hosts".to_string(), Some("/var/h".to_string()), 3);
    assert!(matches!(r, Err(PlanError::TargetInHistory)));
    assert!(is_under("/var/h/x", "/var/h"));
    assert!(!is_under("/var/hx", "/var/h"));
    assert_eq!(temp_path_for("C:\\hosts"), "C:\\hosts.tmp");
}

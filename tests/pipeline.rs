use hostsguard::commit::{CommitPlan, CommitStep, Progress};
use hostsguard::history::{cleanup_old_history, free_snapshot_name, verify_host_file, HistoryEntry};
use hostsguard::hosts::parse_hosts;
use hostsguard::store::{AppState, Config};
use std::collections::BTreeMap;

/// Files in memory: path to (content, time written).
type Disk = BTreeMap<String, (String, u64)>;

fn in_dir(disk: &Disk, dir: &str) -> Vec<HistoryEntry> {
    let prefix = format!("{}/", dir);
    disk.iter()
        .filter(|(p, _)| p.starts_with(&prefix))
        .map(|(p, (c, t))| HistoryEntry {
            filename: p[prefix.len()..].to_string(),
            path: p.clone(),
            timestamp: *t,
            entry_count: 0,
            file_size: c.len() as u64,
        })
        .collect()
}

/// Runs a commit against `disk`, failing the step `fail_at` if given.
fn run(disk: &mut Disk, plan: &CommitPlan, clock: u64, fail_at: Option<CommitStep>) -> Progress {
    let mut snapshot = String::new();
    let mut step = plan.first_step();
    loop {
        let ok = if fail_at == Some(step) {
            false
        } else {
            match step {
                CommitStep::WriteSnapshot => {
                    let dir = plan.history_dir.clone().unwrap();
                    let names: Vec<String> = in_dir(disk, &dir).into_iter().map(|e| e.filename).collect();
                    let name = free_snapshot_name(&names, "2024-05-06-07-08-09", 0).unwrap();
                    snapshot = format!("{}/{}", dir, name);
                    disk.insert(snapshot.clone(), (plan.content.clone(), clock));
                    true
                }
                CommitStep::VerifySnapshot => verify_host_file(&disk[&snapshot].0).is_ok(),
                CommitStep::CleanupHistory => {
                    let dir = plan.history_dir.clone().unwrap();
                    let retention = cleanup_old_history(in_dir(disk, &dir), plan.max_history_entries);
                    for e in retention.remove {
                        disk.remove(&e.path);
                    }
                    true
                }
                CommitStep::WriteTemp => {
                    disk.insert(plan.temp.clone(), (plan.content.clone(), clock));
                    true
                }
                CommitStep::Rename => {
                    let moved = disk.remove(&plan.temp).unwrap();
                    disk.insert(plan.target.clone(), moved);
                    true
                }
                CommitStep::FlushCache => true,
            }
        };
        match plan.advance(step, ok) {
            Progress::Next(next) => step = next,
            other => return other,
        }
    }
}

fn state_with_history() -> AppState {
    let mut config = Config::new();
    config.history_dir = Some("/h".to_string());
    config.max_history_entries = 3;
    AppState::new(config)
}

fn plan_for(state: &AppState) -> CommitPlan {
    let config = state.get_config();
    CommitPlan::new(
        state.serialize(),
        "/etc/hosts".to_string(),
        config.history_dir.clone(),
        config.max_history_entries,
    )
    .ok()
    .unwrap()
}

#[test]
fn add_then_commit_publishes_and_snapshots() {
    let mut disk = Disk::new();
    disk.insert("/etc/hosts".to_string(), ("127.0.0.1 localhost\n".to_string(), 0));
    let mut state = state_with_history();
    state.load_from_text(&disk["/etc/hosts"].0).unwrap();
    assert!(state.add_block("ads.example.com"));
    let plan = plan_for(&state);
    assert_eq!(run(&mut disk, &plan, 1, None), Progress::Done);

    let history = in_dir(&disk, "/h");
    assert_eq!(history.len(), 1);
    let snapshot = parse_hosts(&disk[&history[0].path].0).unwrap();
    assert!(snapshot.blocking.contains(&"ads.example.com".to_string()));
    let live = &disk["/etc/hosts"].0;
    assert!(live.lines().any(|l| l == "127.0.0.1 ads.example.com"));
    assert_eq!(live, "127.0.0.1 localhost\n127.0.0.1 ads.example.com\n");
    assert!(!disk.contains_key("/etc/hosts.tmp"));
}

#[test]
fn failure_before_rename_leaves_hosts_file_untouched() {
    for fail_at in [CommitStep::WriteSnapshot, CommitStep::VerifySnapshot, CommitStep::CleanupHistory, CommitStep::WriteTemp, CommitStep::Rename] {
        let mut disk = Disk::new();
        disk.insert("/etc/hosts".to_string(), ("# old\n".to_string(), 0));
        let mut state = state_with_history();
        state.add_block("new.example.com");
        let plan = plan_for(&state);
        assert_eq!(run(&mut disk, &plan, 1, Some(fail_at)), Progress::Failed(fail_at));
        assert_eq!(disk["/etc/hosts"].0, "# old\n");
    }
}

#[test]
fn failed_flush_still_publishes() {
    let mut disk = Disk::new();
    let mut state = state_with_history();
    state.add_block("x.example.com");
    let plan = plan_for(&state);
    assert_eq!(run(&mut disk, &plan, 1, Some(CommitStep::FlushCache)), Progress::FlushFailed);
    assert_eq!(disk["/etc/hosts"].0, "127.0.0.1 x.example.com\n");
}

#[test]
fn history_keeps_the_most_recent_snapshots() {
    let mut disk = Disk::new();
    let mut state = state_with_history();
    for clock in 1..=5u64 {
        state.add_block(&format!("d{}.example.com", clock));
        let plan = plan_for(&state);
        assert_eq!(run(&mut disk, &plan, clock, None), Progress::Done);
    }
    let mut times: Vec<u64> = in_dir(&disk, "/h").iter().map(|e| e.timestamp).collect();
    times.sort();
    assert_eq!(times, vec![3, 4, 5]);
}

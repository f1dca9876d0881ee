use aegis::mesh::{SwarmOrchestrator, NANOS_PER_SEC, TASK_TIMEOUT_SECS};

fn ids(tasks: &[aegis::mesh::OrchestratedTask]) -> Vec<String> {
    let mut v: Vec<String> = tasks.iter().map(|t| t.task_id.clone()).collect();
    v.sort();
    v
}

fn pending_ids(o: &SwarmOrchestrator) -> Vec<String> {
    let mut v: Vec<String> = o.active_tasks.iter().map(|p| p.task.task_id.clone()).collect();
    v.sort();
    v
}

#[test]
fn a_directive_becomes_three_chained_tasks() {
    let mut o = SwarmOrchestrator::new();
    let tasks = o.fragment_directive(1_000);
    assert_eq!(tasks.len(), 3);
    assert_eq!(tasks[0].task_id, "T-01");
    assert_eq!(tasks[0].instruction, "Scrape SEC Filings for target");
    assert_eq!(tasks[0].payload, "https://sec.gov");
    assert_eq!(tasks[1].task_id, "T-02");
    assert_eq!(tasks[1].payload, "WAITING_ON_T-01");
    assert_eq!(tasks[2].task_id, "T-03");
    assert_eq!(tasks[2].instruction, "Calculate NAS100 Systemic Risk Exposure");
    assert_eq!(tasks[2].payload, "WAITING_ON_T-02");
    assert_eq!(pending_ids(&o), vec!["T-01", "T-02", "T-03"]);
    for p in &o.active_tasks {
        assert_eq!(p.dispatched_at, 1_000);
        assert_eq!(p.timeout_secs, TASK_TIMEOUT_SECS);
        assert!(p.assigned_worker.is_none());
    }
}

#[test]
fn fragmenting_again_replaces_the_tasks() {
    let mut o = SwarmOrchestrator::new();
    o.fragment_directive(0);
    o.fragment_directive(7);
    assert_eq!(o.active_tasks.len(), 3);
    assert!(o.active_tasks.iter().all(|p| p.dispatched_at == 7));
}

#[test]
fn tasks_time_out_after_more_than_45_seconds() {
    let mut o = SwarmOrchestrator::new();
    o.fragment_directive(0);
    // Exactly 45 s elapsed is not yet a timeout.
    assert!(o.check_timeouts(45 * NANOS_PER_SEC).is_empty());
    assert!(o.check_timeouts(46 * NANOS_PER_SEC - 1).is_empty());
    let again = o.check_timeouts(46 * NANOS_PER_SEC);
    assert_eq!(ids(&again), vec!["T-01", "T-02", "T-03"]);
    for p in &o.active_tasks {
        assert_eq!(p.dispatched_at, 46 * NANOS_PER_SEC);
        assert!(p.assigned_worker.is_none());
    }
    // Right after the scan nothing is overdue.
    assert!(o.check_timeouts(46 * NANOS_PER_SEC).is_empty());
}

#[test]
fn completed_tasks_are_never_reassigned() {
    let mut o = SwarmOrchestrator::new();
    o.fragment_directive(0);
    o.complete_task("T-02");
    o.complete_task("T-99");
    assert_eq!(pending_ids(&o), vec!["T-01", "T-03"]);
    let again = o.check_timeouts(100 * NANOS_PER_SEC);
    assert_eq!(ids(&again), vec!["T-01", "T-03"]);
}

#[test]
fn only_overdue_tasks_are_reassigned() {
    let mut o = SwarmOrchestrator::new();
    o.fragment_directive(0);
    o.active_tasks[1].dispatched_at = 30 * NANOS_PER_SEC;
    let again = o.check_timeouts(50 * NANOS_PER_SEC);
    assert_eq!(again.len(), 2);
    assert_eq!(ids(&again), vec!["T-01", "T-03"]);
    let t2 = o.active_tasks.iter().find(|p| p.task.task_id == "T-02").unwrap();
    assert_eq!(t2.dispatched_at, 30 * NANOS_PER_SEC);
}

#[test]
fn a_clock_behind_the_dispatch_time_counts_as_no_time() {
    let mut o = SwarmOrchestrator::new();
    o.fragment_directive(500 * NANOS_PER_SEC);
    assert!(o.check_timeouts(0).is_empty());
}

use stellargate::{unix_now_secs, JoinOutcome, TaskHealth};

#[test]
fn no_required_tasks_is_healthy() {
    let health = TaskHealth::new();
    assert!(health.dead_required_tasks().is_empty());
}

#[test]
fn running_required_task_is_healthy() {
    let mut health = TaskHealth::new();
    health.require("poller");
    health.task_started("poller");
    assert!(health.dead_required_tasks().is_empty());
}

#[test]
fn stopped_required_task_is_dead() {
    let mut health = TaskHealth::new();
    health.require("poller");
    health.task_started("poller");
    health.task_stopped("poller");
    assert_eq!(health.dead_required_tasks(), vec!["poller"]);
}

#[test]
fn never_started_required_task_is_dead() {
    let mut health = TaskHealth::new();
    health.require("redrive");
    assert_eq!(health.dead_required_tasks(), vec!["redrive"]);
}

#[test]
fn unrequired_stopped_task_does_not_fail_health() {
    // A task that is not required (e.g. the stream on a poll-only
    // deployment, or the poller without a configured gateway) stopping is
    // by design and must not fail /health.
    let mut health = TaskHealth::new();
    health.require("sweeper");
    health.task_started("sweeper");
    health.task_started("poller");
    health.task_stopped("poller");
    assert!(health.dead_required_tasks().is_empty());
}

#[test]
fn failed_task_is_not_running() {
    // task_failed marks the task dead even if task_stopped never ran.
    let mut health = TaskHealth::new();
    health.require("poller");
    health.task_started("poller");
    health.task_failed("poller");
    assert_eq!(health.dead_required_tasks(), vec!["poller"]);
}

#[test]
fn last_success_age_is_zero_after_note_success() {
    let mut health = TaskHealth::new();
    health.note_success();
    assert!(health.last_success_age_secs() <= 1);
}

#[test]
fn never_succeeded_is_maximally_stale() {
    let health = TaskHealth::new();
    assert!(health.last_success_age_secs() > 1_000_000_000);
}

#[test]
fn stale_timestamp_reports_large_age() {
    let mut health = TaskHealth::new();
    health.set_last_success_unix(unix_now_secs() - 120);
    assert!(health.last_success_age_secs() >= 119);
}

#[test]
fn restarted_task_is_healthy_again() {
    let mut health = TaskHealth::default();
    health.require("poller");
    health.require("sweeper");
    health.task_started("poller");
    health.task_started("sweeper");
    health.task_returned("poller", true);
    assert_eq!(health.dead_required_tasks(), vec!["poller"]);
    health.task_started("poller");
    assert!(health.dead_required_tasks().is_empty());
}

#[test]
fn dead_tasks_come_in_the_order_in_which_they_were_required() {
    let mut health = TaskHealth::new();
    health.require("sweeper");
    health.require("poller");
    health.require("redrive");
    health.task_started("poller");
    assert_eq!(health.dead_required_tasks(), vec!["sweeper", "redrive"]);
}

#[test]
fn returned_task_is_dead_with_or_without_panic() {
    for panicked in [false, true] {
        let mut health = TaskHealth::new();
        health.require("retention");
        health.task_started("retention");
        health.task_returned("retention", panicked);
        assert_eq!(health.dead_required_tasks(), vec!["retention"]);
    }
}

#[test]
fn every_error_at_the_join_is_recorded() {
    for outcome in [JoinOutcome::Panicked, JoinOutcome::Cancelled] {
        let mut health = TaskHealth::new();
        health.require("redrive");
        health.task_started("redrive");
        health.task_joined("redrive", outcome);
        assert_eq!(health.dead_required_tasks(), vec!["redrive"]);
    }
}

#[test]
fn join_of_a_task_that_returned_records_nothing() {
    let mut health = TaskHealth::new();
    health.require("redrive");
    health.task_started("redrive");
    health.task_joined("redrive", JoinOutcome::Returned);
    assert!(health.dead_required_tasks().is_empty());
}

#[test]
fn expected_tasks_depend_on_wallet_and_mode() {
    let mut idle = TaskHealth::new();
    idle.require_expected(false, true);
    assert_eq!(
        idle.dead_required_tasks(),
        vec!["sweeper", "retention", "redrive"]
    );
    let mut polling = TaskHealth::new();
    polling.require_expected(true, false);
    assert_eq!(
        polling.dead_required_tasks(),
        vec!["poller", "sweeper", "retention", "redrive"]
    );
    let mut streaming = TaskHealth::new();
    streaming.require_expected(true, true);
    assert_eq!(
        streaming.dead_required_tasks(),
        vec!["poller", "stream", "sweeper", "retention", "redrive"]
    );
}

#[test]
fn success_is_noted_at_a_reading_of_the_clock() {
    let mut health = TaskHealth::new();
    health.note_success_at(Some(1_000));
    assert_eq!(health.success_age_at(Some(1_060)), 60);
    health.note_success_at(None);
    assert_eq!(health.success_age_at(Some(1_060)), 1_060);
}

#[test]
fn age_follows_the_clock() {
    let mut health = TaskHealth::new();
    health.set_last_success_unix(1_000);
    assert_eq!(health.success_age_at(Some(1_000)), 0);
    assert_eq!(health.success_age_at(Some(1_090)), 90);
    assert_eq!(health.success_age_at(Some(990)), -10);
}

#[test]
fn clock_before_the_epoch_saturates_at_zero() {
    let mut health = TaskHealth::new();
    assert_eq!(health.success_age_at(None), 0);
    health.set_last_success_unix(1_000);
    assert_eq!(health.success_age_at(None), 0);
    health.set_last_success_unix(-5);
    assert_eq!(health.success_age_at(None), 5);
}

#[test]
fn age_is_clipped_to_its_type() {
    let mut health = TaskHealth::new();
    health.set_last_success_unix(i64::MIN);
    assert_eq!(health.success_age_at(Some(5)), i64::MAX);
    health.set_last_success_unix(i64::MAX);
    assert_eq!(health.success_age_at(Some(0)), -i64::MAX);
}

#[test]
fn clock_is_read_in_unix_seconds() {
    let now = unix_now_secs();
    assert!(now > 1_600_000_000);
    assert!(now < 32_503_680_000);
}

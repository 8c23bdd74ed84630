use stellargate::db::deliveries::RedrivePolicy;
use stellargate::db::{
    acknowledge_deliveries, create_webhook_delivery, find_eligible_for_redrive,
    get_webhook_delivery, list_webhook_deliveries_for_payment, prune_webhook_deliveries,
    update_webhook_delivery_status, Db, DbError, WebhookDelivery,
};
use stellargate::timestamp::Moment;

const DAY: i64 = 86_400;

fn at(secs: i64) -> Moment {
    Moment::at(1_777_474_800 + secs).unwrap()
}

fn add(db: &mut Db, id: &str, secs: i64) {
    create_webhook_delivery(
        db,
        id,
        "p1",
        "https://shop.example/hook",
        "{}",
        Some("payment.completed"),
        &at(secs),
    )
    .unwrap();
}

fn ids(rows: &[WebhookDelivery]) -> Vec<&str> {
    rows.iter().map(|d| d.id.as_str()).collect()
}

fn redrive(db: &Db, jitter: i64, limit: i64, draws: &Vec<u64>, secs: i64) -> Vec<WebhookDelivery> {
    find_eligible_for_redrive(db, 8, 60, 30, 900, jitter, limit, draws, &at(secs))
}

#[test]
fn created_delivery_is_pending_and_fetched() {
    let mut db = Db::new();
    add(&mut db, "d1", 0);
    let d = get_webhook_delivery(&db, "d1").unwrap();
    assert_eq!(d.status, "pending");
    assert_eq!(d.attempts, 0);
    assert_eq!(d.last_attempt, None);
    assert_eq!(d.acknowledged_at, None);
    assert_eq!(d.event_type.as_deref(), Some("payment.completed"));
    assert_eq!(d.created_at, "2026-04-29T15:00:00Z");
    assert!(get_webhook_delivery(&db, "d2").is_none());
}

#[test]
fn second_delivery_with_one_id_is_refused() {
    let mut db = Db::new();
    add(&mut db, "d1", 0);
    let again = create_webhook_delivery(&mut db, "d1", "p2", "u", "{}", None, &at(1));
    assert_eq!(again.unwrap_err(), DbError::DuplicateKey);
    assert_eq!(db.webhook_deliveries.len(), 1);
}

#[test]
fn deliveries_of_a_payment_come_newest_first() {
    let mut db = Db::new();
    add(&mut db, "d1", 0);
    add(&mut db, "d2", 2);
    add(&mut db, "d3", 1);
    assert_eq!(
        ids(&list_webhook_deliveries_for_payment(&db, "p1")),
        vec!["d2", "d3", "d1"]
    );
    assert!(list_webhook_deliveries_for_payment(&db, "p2").is_empty());
}

#[test]
fn every_attempt_is_recorded() {
    let mut db = Db::new();
    add(&mut db, "d1", 0);
    add(&mut db, "d2", 0);
    update_webhook_delivery_status(&mut db, "d1", "failed", &at(3)).unwrap();
    update_webhook_delivery_status(&mut db, "d1", "delivered", &at(9)).unwrap();
    let d = get_webhook_delivery(&db, "d1").unwrap();
    assert_eq!(d.attempts, 2);
    assert_eq!(d.status, "delivered");
    assert_eq!(d.last_attempt.as_deref(), Some("2026-04-29T15:00:09Z"));
    assert_eq!(get_webhook_delivery(&db, "d2").unwrap().attempts, 0);
}

#[test]
fn attempt_beyond_the_counter_is_refused() {
    let mut db = Db::new();
    add(&mut db, "d1", 0);
    db.webhook_deliveries[0].attempts = i64::MAX;
    assert_eq!(
        update_webhook_delivery_status(&mut db, "d1", "failed", &at(3)),
        Err(DbError::IntegerOverflow)
    );
    assert_eq!(db.webhook_deliveries[0].status, "pending");
    assert_eq!(update_webhook_delivery_status(&mut db, "d9", "failed", &at(3)), Ok(()));
}

#[test]
fn backoff_doubles_between_floor_and_ceiling() {
    let policy = RedrivePolicy {
        max_attempts: 8,
        grace_secs: 60,
        backoff_initial: 30,
        backoff_max: 900,
        jitter_secs: 0,
    };
    let waits: Vec<i64> = (0..9).map(|n| policy.wait_secs(n)).collect();
    assert_eq!(waits, vec![60, 60, 60, 120, 240, 480, 900, 900, 900]);
    assert_eq!(policy.wait_secs(i64::MAX), 900);
    assert_eq!(policy.wait_secs(i64::MIN), 60);
}

#[test]
fn zero_backoff_does_not_grow() {
    let policy = RedrivePolicy {
        max_attempts: 8,
        grace_secs: 60,
        backoff_initial: 0,
        backoff_max: 900,
        jitter_secs: 0,
    };
    assert_eq!(policy.wait_secs(1), 60);
    assert_eq!(policy.wait_secs(1_000_000), 60);
}

#[test]
fn jitter_stays_within_its_bound() {
    let mut policy = RedrivePolicy {
        max_attempts: 8,
        grace_secs: 60,
        backoff_initial: 30,
        backoff_max: 900,
        jitter_secs: 9,
    };
    assert_eq!(policy.jitter_of(0), Some(0));
    assert_eq!(policy.jitter_of(9), Some(9));
    assert_eq!(policy.jitter_of(10), Some(0));
    assert_eq!(policy.jitter_of(u64::MAX), Some(5));
    policy.jitter_secs = -1;
    assert_eq!(policy.jitter_of(3), None);
}

#[test]
fn fresh_delivery_waits_for_the_grace_window() {
    let mut db = Db::new();
    add(&mut db, "d1", 0);
    let draws = vec![1_000];
    assert!(redrive(&db, 30, 10, &draws, 59).is_empty());
    assert_eq!(ids(&redrive(&db, 30, 10, &draws, 60)), vec!["d1"]);
}

#[test]
fn redrive_never_races_an_attempt() {
    let mut db = Db::new();
    add(&mut db, "d1", 0);
    update_webhook_delivery_status(&mut db, "d1", "failed", &at(100)).unwrap();
    let draws = vec![7];
    assert!(redrive(&db, 0, 10, &draws, 159).is_empty());
    assert_eq!(redrive(&db, 0, 10, &draws, 160).len(), 1);
    // Seven seconds of random delay on top.
    assert!(redrive(&db, 9, 10, &draws, 166).is_empty());
    assert_eq!(redrive(&db, 9, 10, &draws, 167).len(), 1);
}

#[test]
fn backoff_spreads_retries() {
    let mut db = Db::new();
    add(&mut db, "d1", 0);
    for secs in [10, 20, 30, 40] {
        update_webhook_delivery_status(&mut db, "d1", "failed", &at(secs)).unwrap();
    }
    let draws = vec![0];
    assert!(redrive(&db, 0, 10, &draws, 40 + 239).is_empty());
    assert_eq!(redrive(&db, 0, 10, &draws, 40 + 240).len(), 1);
}

#[test]
fn delivered_and_exhausted_deliveries_are_left_alone() {
    let mut db = Db::new();
    add(&mut db, "done", 0);
    add(&mut db, "spent", 0);
    add(&mut db, "due", 0);
    update_webhook_delivery_status(&mut db, "done", "delivered", &at(1)).unwrap();
    update_webhook_delivery_status(&mut db, "spent", "failed", &at(1)).unwrap();
    db.webhook_deliveries[1].attempts = 8;
    let draws = vec![0, 0, 0];
    assert_eq!(ids(&redrive(&db, 0, 10, &draws, 100_000)), vec!["due"]);
}

#[test]
fn longest_idle_is_redriven_first() {
    let mut db = Db::new();
    for id in ["a", "b", "c", "d"] {
        add(&mut db, id, 0);
    }
    update_webhook_delivery_status(&mut db, "a", "failed", &at(20)).unwrap();
    update_webhook_delivery_status(&mut db, "b", "failed", &at(10)).unwrap();
    update_webhook_delivery_status(&mut db, "c", "pending", &at(30)).unwrap();
    let draws = vec![0, 0, 0, 0];
    assert_eq!(
        ids(&redrive(&db, 0, 10, &draws, 5_000)),
        vec!["d", "b", "a", "c"]
    );
    assert_eq!(ids(&redrive(&db, 0, 2, &draws, 5_000)), vec!["d", "b"]);
    assert_eq!(redrive(&db, 0, -1, &draws, 5_000).len(), 4);
    assert!(redrive(&db, 0, 0, &draws, 5_000).is_empty());
}

#[test]
fn each_delivery_has_its_own_draw() {
    let mut db = Db::new();
    add(&mut db, "a", 0);
    add(&mut db, "b", 0);
    update_webhook_delivery_status(&mut db, "a", "failed", &at(0)).unwrap();
    update_webhook_delivery_status(&mut db, "b", "failed", &at(0)).unwrap();
    assert_eq!(ids(&redrive(&db, 9, 10, &vec![9, 0], 60)), vec!["b"]);
    assert_eq!(ids(&redrive(&db, 9, 10, &vec![0, 9], 60)), vec!["a"]);
    assert_eq!(redrive(&db, 9, 10, &vec![], 60).len(), 2);
}

#[test]
fn unreadable_attempt_is_never_due() {
    let mut db = Db::new();
    add(&mut db, "a", 0);
    db.webhook_deliveries[0].last_attempt = Some("soon".to_string());
    assert!(redrive(&db, 0, 10, &vec![0], 1_000_000).is_empty());
}

#[test]
fn timestamps_with_offset_or_fraction_are_redriven_and_pruned() {
    let mut db = Db::new();
    add(&mut db, "a", 0);
    db.webhook_deliveries[0].status = "failed".to_string();
    db.webhook_deliveries[0].attempts = 1;
    db.webhook_deliveries[0].created_at = "2026-04-29T17:00:00+02:00".to_string();
    db.webhook_deliveries[0].last_attempt = Some("2026-04-29T15:00:00.500Z".to_string());
    assert!(redrive(&db, 0, 10, &vec![0], 59).is_empty());
    assert_eq!(redrive(&db, 0, 10, &vec![0], 60).len(), 1);
    assert_eq!(prune_webhook_deliveries(&mut db, 1, 10, &at(DAY)), 0);
    assert_eq!(prune_webhook_deliveries(&mut db, 1, 10, &at(DAY + 1)), 1);
}

#[test]
fn leading_blank_keeps_a_row_from_redrive_and_retention() {
    let mut db = Db::new();
    add(&mut db, "a", 0);
    db.webhook_deliveries[0].status = "failed".to_string();
    db.webhook_deliveries[0].created_at = " 2026-04-29T15:00:00Z".to_string();
    db.webhook_deliveries[0].last_attempt = Some(" 2026-04-29T15:00:00Z".to_string());
    assert!(redrive(&db, 0, 10, &vec![0], 100 * DAY).is_empty());
    assert_eq!(prune_webhook_deliveries(&mut db, 1, 10, &at(100 * DAY)), 0);
}

#[test]
fn retention_removes_only_terminal_deliveries() {
    let mut db = Db::new();
    for id in ["done", "failed", "pending", "young"] {
        add(&mut db, id, if id == "young" { DAY } else { 0 });
    }
    update_webhook_delivery_status(&mut db, "done", "delivered", &at(1)).unwrap();
    update_webhook_delivery_status(&mut db, "failed", "failed", &at(1)).unwrap();
    update_webhook_delivery_status(&mut db, "young", "delivered", &at(DAY)).unwrap();
    assert_eq!(prune_webhook_deliveries(&mut db, 1, 10, &at(DAY)), 0);
    assert_eq!(prune_webhook_deliveries(&mut db, 1, 10, &at(DAY + 1)), 2);
    assert_eq!(
        ids(&list_webhook_deliveries_for_payment(&db, "p1")),
        vec!["young", "pending"]
    );
}

#[test]
fn acknowledged_delivery_is_kept() {
    let mut db = Db::new();
    for id in ["a", "b", "c"] {
        add(&mut db, id, 0);
        update_webhook_delivery_status(&mut db, id, "failed", &at(1)).unwrap();
    }
    let acknowledged = vec!["b".to_string(), "x".to_string()];
    assert_eq!(acknowledge_deliveries(&mut db, &acknowledged, &at(2)), 1);
    assert_eq!(prune_webhook_deliveries(&mut db, 30, -1, &at(31 * DAY)), 2);
    assert_eq!(
        ids(&list_webhook_deliveries_for_payment(&db, "p1")),
        vec!["b"]
    );
}

#[test]
fn retention_drains_in_batches() {
    let mut db = Db::new();
    for id in ["a", "b", "c"] {
        add(&mut db, id, 0);
        update_webhook_delivery_status(&mut db, id, "delivered", &at(1)).unwrap();
    }
    let now = at(40 * DAY);
    assert_eq!(prune_webhook_deliveries(&mut db, 30, 2, &now), 2);
    assert_eq!(prune_webhook_deliveries(&mut db, 30, 2, &now), 1);
    assert_eq!(prune_webhook_deliveries(&mut db, 30, 2, &now), 0);
}

#[test]
fn delivery_is_acknowledged_once() {
    let mut db = Db::new();
    add(&mut db, "a", 0);
    add(&mut db, "b", 0);
    let both = vec!["a".to_string(), "b".to_string()];
    assert_eq!(acknowledge_deliveries(&mut db, &vec!["a".to_string()], &at(5)), 1);
    assert_eq!(acknowledge_deliveries(&mut db, &both, &at(6)), 1);
    assert_eq!(acknowledge_deliveries(&mut db, &both, &at(7)), 0);
    assert_eq!(acknowledge_deliveries(&mut db, &vec![], &at(8)), 0);
    assert_eq!(
        get_webhook_delivery(&db, "a").unwrap().acknowledged_at.as_deref(),
        Some("2026-04-29T15:00:05Z")
    );
}

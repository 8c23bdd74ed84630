use stellargate::db::{
    acknowledge_deliveries, create_api_key, create_merchant, create_payment,
    create_webhook_delivery, expire_overdue, migrate, revoke_api_key, save_idempotency_key, set_kv,
    touch_api_key, update_payment_status, update_webhook_delivery_status, Db, NewPayment,
};
use stellargate::timestamp::{matches_ts_pattern, Moment};

fn at(secs: i64) -> Moment {
    Moment::at(1_777_474_800 + secs).unwrap()
}

fn intent(id: &str) -> NewPayment<'_> {
    NewPayment {
        id,
        merchant_id: "m",
        destination_address: "GDEST",
        memo: id,
        amount: "1",
        asset: "XLM",
        asset_issuer: None,
        webhook_url: None,
        ttl_secs: 60,
    }
}

/// Every timestamp that is stored.
fn timestamps(db: &Db) -> Vec<String> {
    let mut all: Vec<Option<String>> = Vec::new();
    for p in &db.payments {
        all.push(Some(p.created_at.clone()));
        all.push(Some(p.updated_at.clone()));
        all.push(Some(p.expires_at.clone()));
    }
    for k in &db.idempotency_keys {
        all.push(Some(k.created_at.clone()));
    }
    for e in &db.kv_state {
        all.push(Some(e.updated_at.clone()));
    }
    for m in &db.merchants {
        all.push(Some(m.created_at.clone()));
    }
    for k in &db.api_keys {
        all.push(Some(k.created_at.clone()));
        all.push(k.last_used_at.clone());
        all.push(k.revoked_at.clone());
    }
    for d in &db.webhook_deliveries {
        all.push(Some(d.created_at.clone()));
        all.push(d.last_attempt.clone());
        all.push(d.acknowledged_at.clone());
    }
    all.into_iter().flatten().collect()
}

fn written() -> Db {
    let mut db = Db::new();
    create_payment(&mut db, intent("p1"), &at(0)).unwrap();
    create_payment(&mut db, intent("p2"), &at(0)).unwrap();
    assert!(update_payment_status(&mut db, "p1", "completed", None, None, &at(1)));
    assert_eq!(expire_overdue(&mut db, 10, &at(100)).len(), 1);
    save_idempotency_key(&mut db, "m", "k", "p1", &at(2));
    set_kv(&mut db, "cursor", "1", &at(3));
    create_merchant(&mut db, "m", "h", &at(4)).unwrap();
    create_api_key(&mut db, "a", "m", "h", "p", None, &at(5)).unwrap();
    touch_api_key(&mut db, "h", &at(6));
    assert!(revoke_api_key(&mut db, "a", "m", &at(7)));
    create_webhook_delivery(&mut db, "d", "p1", "u", "{}", None, &at(8)).unwrap();
    update_webhook_delivery_status(&mut db, "d", "failed", &at(9)).unwrap();
    assert_eq!(acknowledge_deliveries(&mut db, &vec!["d".to_string()], &at(10)), 1);
    db
}

#[test]
fn every_write_is_stamped() {
    let stamps = timestamps(&written());
    assert_eq!(stamps.len(), 15);
    for ts in stamps {
        assert!(matches_ts_pattern(&ts), "{}", ts);
    }
}

#[test]
fn upgrade_stamps_legacy_rows() {
    let mut db = written();
    db.payments[0].created_at = "2026-04-29 15:00:00".to_string();
    db.kv_state[0].updated_at = "2026-04-29T15:00:00".to_string();
    db.api_keys[0].revoked_at = Some(" 2026-04-29 15:00:00 ".to_string());
    assert_eq!(
        timestamps(&db).iter().filter(|ts| !matches_ts_pattern(ts)).count(),
        3
    );
    migrate(&mut db);
    assert!(timestamps(&db).iter().all(|ts| matches_ts_pattern(ts)));
}

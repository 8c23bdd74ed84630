use stellargate::db::{
    count_payments, create_payment, expire_overdue, find_payment_id_by_idempotency_key,
    find_pending_by_memo, get_kv, get_payment, list_payments, list_payments_keyset, list_pending,
    prune_idempotency_keys, record_processed_transaction, save_idempotency_key, set_kv,
    update_payment_status, Db, DbError, NewPayment, Payment,
};
use stellargate::timestamp::Moment;

const NOW: i64 = 1_777_474_800;

fn at(secs: i64) -> Moment {
    Moment::at(NOW + secs).unwrap()
}

fn intent<'a>(id: &'a str, amount: &'a str, ttl_secs: i64) -> NewPayment<'a> {
    NewPayment {
        id,
        merchant_id: "m1",
        destination_address: "GDEST",
        memo: id,
        amount,
        asset: "XLM",
        asset_issuer: None,
        webhook_url: Some("https://shop.example/hook"),
        ttl_secs,
    }
}

fn ids(payments: &[Payment]) -> Vec<&str> {
    payments.iter().map(|p| p.id.as_str()).collect()
}

/// Five intents, created at seconds 0, 1, 1, 1 and 2.
fn five() -> Db {
    let mut db = Db::new();
    for (id, secs) in [("a", 0), ("b", 1), ("d", 1), ("c", 1), ("e", 2)] {
        create_payment(&mut db, intent(id, "10", 3600), &at(secs)).unwrap();
    }
    db
}

#[test]
fn created_payment_is_pending_and_fetched() {
    let mut db = Db::new();
    let created = create_payment(&mut db, intent("p1", "10.00", 3600), &at(0)).unwrap();
    assert_eq!(created.status, "pending");
    assert_eq!(created.amount, "10");
    assert_eq!(created.created_at, "2026-04-29T15:00:00Z");
    assert_eq!(created.updated_at, "2026-04-29T15:00:00Z");
    assert_eq!(created.expires_at, "2026-04-29T16:00:00Z");
    assert_eq!(
        created.webhook_url.as_deref(),
        Some("https://shop.example/hook")
    );
    assert_eq!(created.tx_hash, None);
    let fetched = get_payment(&db, "p1").unwrap();
    assert_eq!(fetched.amount, created.amount);
    assert_eq!(fetched.expires_at, created.expires_at);
    assert!(get_payment(&db, "p2").is_none());
}

#[test]
fn equal_amounts_are_stored_identically() {
    let mut db = Db::new();
    for (id, amount) in [("a", "10.00"), ("b", "10.0"), ("c", "10")] {
        let p = create_payment(&mut db, intent(id, amount, 60), &at(0)).unwrap();
        assert_eq!(p.amount, "10");
    }
}

#[test]
fn refused_intents_change_nothing() {
    let mut db = Db::new();
    create_payment(&mut db, intent("p1", "1", 60), &at(0)).unwrap();
    assert_eq!(
        create_payment(&mut db, intent("p2", "ten", 60), &at(0)).unwrap_err(),
        DbError::InvalidAmount
    );
    assert_eq!(
        create_payment(&mut db, intent("p2", "1", i64::MAX), &at(0)).unwrap_err(),
        DbError::ExpiryOutOfRange
    );
    assert_eq!(
        create_payment(&mut db, intent("p1", "1", 60), &at(0)).unwrap_err(),
        DbError::DuplicateKey
    );
    assert_eq!(db.payments.len(), 1);
}

#[test]
fn errors_explain_themselves() {
    assert_eq!(DbError::InvalidAmount.message(), "Invalid amount");
    assert_eq!(DbError::ExpiryOutOfRange.message(), "Expiry out of range");
    assert_eq!(DbError::DuplicateKey.message(), "Duplicate key");
    assert_eq!(DbError::IntegerOverflow.message(), "Integer overflow");
}

#[test]
fn payments_are_listed_newest_first() {
    let db = five();
    assert_eq!(
        ids(&list_payments(&db, "m1", None, 10, 0)),
        vec!["e", "d", "c", "b", "a"]
    );
    assert_eq!(ids(&list_payments(&db, "m1", None, 2, 1)), vec!["d", "c"]);
    assert_eq!(ids(&list_payments(&db, "m1", None, 10, 9)), Vec::<&str>::new());
    assert_eq!(list_payments(&db, "m1", None, -1, 0).len(), 5);
    assert_eq!(list_payments(&db, "m1", None, -1, -3).len(), 5);
    assert!(list_payments(&db, "m1", None, 0, 0).is_empty());
    assert!(list_payments(&db, "m2", None, 10, 0).is_empty());
}

#[test]
fn list_is_filtered_by_status() {
    let mut db = five();
    assert!(update_payment_status(&mut db, "c", "completed", Some("h"), Some("10"), &at(5)));
    assert_eq!(
        ids(&list_payments(&db, "m1", Some("completed"), 10, 0)),
        vec!["c"]
    );
    assert_eq!(
        ids(&list_payments_keyset(&db, "m1", Some("pending"), 2, None)),
        vec!["e", "d"]
    );
    assert_eq!(count_payments(&db, "m1", None), 5);
    assert_eq!(count_payments(&db, "m1", Some("pending")), 4);
    assert_eq!(count_payments(&db, "m1", Some("expired")), 0);
    assert_eq!(count_payments(&db, "m2", None), 0);
}

#[test]
fn cursor_resumes_without_skipping_or_repeating() {
    let db = five();
    let mut seen: Vec<String> = Vec::new();
    let mut cursor: Option<(String, String)> = None;
    loop {
        let page = match &cursor {
            Some((ts, id)) => list_payments_keyset(&db, "m1", None, 2, Some((ts, id))),
            None => list_payments_keyset(&db, "m1", None, 2, None),
        };
        if page.is_empty() {
            break;
        }
        let last = &page[page.len() - 1];
        cursor = Some((last.created_at.clone(), last.id.clone()));
        for p in &page {
            seen.push(p.id.clone());
        }
    }
    assert_eq!(seen, vec!["e", "d", "c", "b", "a"]);
}

#[test]
fn cursor_from_an_offset_page_resumes() {
    let db = five();
    let first = list_payments(&db, "m1", Some("pending"), 3, 0);
    let last = &first[2];
    let rest = list_payments_keyset(
        &db,
        "m1",
        Some("pending"),
        10,
        Some((&last.created_at, &last.id)),
    );
    assert_eq!(ids(&first), vec!["e", "d", "c"]);
    assert_eq!(ids(&rest), vec!["b", "a"]);
}

#[test]
fn cursor_is_stable_under_inserts() {
    let mut db = five();
    let first = list_payments_keyset(&db, "m1", None, 2, None);
    create_payment(&mut db, intent("z", "1", 60), &at(9)).unwrap();
    let last = &first[1];
    let rest = list_payments_keyset(&db, "m1", None, 10, Some((&last.created_at, &last.id)));
    assert_eq!(ids(&first), vec!["e", "d"]);
    assert_eq!(ids(&rest), vec!["c", "b", "a"]);
    // Offsets move with the rows.
    assert_eq!(ids(&list_payments(&db, "m1", None, 10, 2)), vec!["d", "c", "b", "a"]);
}

#[test]
fn pending_payments_come_oldest_first() {
    let mut db = five();
    update_payment_status(&mut db, "b", "underpaid", Some("h"), Some("4"), &at(3));
    update_payment_status(&mut db, "e", "completed", Some("h"), Some("10"), &at(3));
    assert_eq!(
        ids(&list_pending(&db, &at(10))),
        vec!["a", "b", "d", "c"]
    );
}

#[test]
fn overdue_intent_is_never_polled() {
    let mut db = Db::new();
    create_payment(&mut db, intent("p", "1", 60), &at(0)).unwrap();
    assert_eq!(list_pending(&db, &at(59)).len(), 1);
    assert!(find_pending_by_memo(&db, "p", &at(59)).is_some());
    assert!(list_pending(&db, &at(60)).is_empty());
    assert!(find_pending_by_memo(&db, "p", &at(60)).is_none());
    assert_eq!(expire_overdue(&mut db, 10, &at(59)).len(), 0);
    assert_eq!(expire_overdue(&mut db, 10, &at(60)).len(), 1);
}

#[test]
fn intent_without_lifetime_is_overdue_at_once() {
    let mut db = Db::new();
    create_payment(&mut db, intent("p", "1", -5), &at(0)).unwrap();
    assert!(list_pending(&db, &at(0)).is_empty());
}

#[test]
fn memo_finds_the_pending_payment_only() {
    let mut db = five();
    assert_eq!(find_pending_by_memo(&db, "c", &at(3)).unwrap().id, "c");
    assert!(find_pending_by_memo(&db, "x", &at(3)).is_none());
    update_payment_status(&mut db, "c", "completed", Some("h"), Some("10"), &at(3));
    assert!(find_pending_by_memo(&db, "c", &at(4)).is_none());
}

#[test]
fn payment_settles_once() {
    let mut db = five();
    assert!(update_payment_status(&mut db, "a", "completed", Some("h1"), Some("10"), &at(5)));
    assert!(!update_payment_status(&mut db, "a", "completed", Some("h2"), Some("11"), &at(6)));
    assert!(!update_payment_status(&mut db, "x", "completed", None, None, &at(6)));
    let p = get_payment(&db, "a").unwrap();
    assert_eq!(p.status, "completed");
    assert_eq!(p.tx_hash.as_deref(), Some("h1"));
    assert_eq!(p.paid_amount.as_deref(), Some("10"));
    assert_eq!(p.updated_at, "2026-04-29T15:00:05Z");
    assert_eq!(get_payment(&db, "b").unwrap().status, "pending");
}

#[test]
fn underpaid_payment_accepts_a_top_up() {
    let mut db = five();
    assert!(update_payment_status(&mut db, "a", "underpaid", Some("h1"), Some("4"), &at(5)));
    assert!(update_payment_status(&mut db, "a", "completed", None, Some("10"), &at(6)));
    let p = get_payment(&db, "a").unwrap();
    assert_eq!(p.tx_hash.as_deref(), Some("h1"));
    assert_eq!(p.paid_amount.as_deref(), Some("10"));
}

#[test]
fn sweep_and_settlement_exclude_each_other() {
    let mut db = five();
    assert!(update_payment_status(&mut db, "a", "completed", Some("h"), Some("10"), &at(3600)));
    let swept = expire_overdue(&mut db, -1, &at(4000));
    assert_eq!(ids(&swept), vec!["b", "d", "c", "e"]);
    assert!(swept.iter().all(|p| p.status == "expired"));
    assert!(!update_payment_status(&mut db, "b", "completed", Some("h"), Some("10"), &at(4001)));
    assert_eq!(get_payment(&db, "a").unwrap().status, "completed");
    assert_eq!(get_payment(&db, "b").unwrap().status, "expired");
}

#[test]
fn backlog_drains_in_batches_oldest_first() {
    let mut db = five();
    let now = at(4000);
    assert_eq!(ids(&expire_overdue(&mut db, 2, &now)), vec!["a", "b"]);
    assert_eq!(ids(&expire_overdue(&mut db, 2, &now)), vec!["d", "c"]);
    assert_eq!(ids(&expire_overdue(&mut db, 2, &now)), vec!["e"]);
    assert!(expire_overdue(&mut db, 2, &now).is_empty());
}

#[test]
fn legacy_rows_are_handed_out_in_normal_form() {
    let mut db = five();
    db.payments[0].created_at = "2026-04-29 15:00:00".to_string();
    let p = get_payment(&db, "a").unwrap();
    assert_eq!(p.created_at, "2026-04-29T15:00:00Z");
    assert_eq!(db.payments[0].created_at, "2026-04-29 15:00:00");
}

#[test]
fn transaction_is_credited_once() {
    let mut db = Db::new();
    assert_eq!(record_processed_transaction(&mut db, "p", "t1", 40), Ok(40));
    assert_eq!(record_processed_transaction(&mut db, "p", "t1", 99), Ok(40));
    assert_eq!(record_processed_transaction(&mut db, "p", "t2", 60), Ok(100));
    assert_eq!(record_processed_transaction(&mut db, "q", "t1", 7), Ok(7));
    assert_eq!(db.processed_transactions.len(), 3);
}

#[test]
fn credit_beyond_the_counter_is_an_error() {
    let mut db = Db::new();
    assert_eq!(
        record_processed_transaction(&mut db, "p", "t1", i64::MAX),
        Ok(i64::MAX)
    );
    assert_eq!(
        record_processed_transaction(&mut db, "p", "t2", 1),
        Err(DbError::IntegerOverflow)
    );
    assert_eq!(db.processed_transactions.len(), 2);
}

#[test]
fn idempotency_key_is_minted_once() {
    let mut db = Db::new();
    assert_eq!(find_payment_id_by_idempotency_key(&db, "m1", "k"), None);
    assert_eq!(save_idempotency_key(&mut db, "m1", "k", "p1", &at(0)), "p1");
    assert_eq!(save_idempotency_key(&mut db, "m1", "k", "p2", &at(1)), "p1");
    assert_eq!(save_idempotency_key(&mut db, "m2", "k", "p3", &at(1)), "p3");
    assert_eq!(
        find_payment_id_by_idempotency_key(&db, "m1", "k").as_deref(),
        Some("p1")
    );
}

#[test]
fn old_idempotency_keys_are_pruned_in_batches() {
    let mut db = Db::new();
    let day = 86_400;
    save_idempotency_key(&mut db, "m", "old1", "p1", &at(0));
    save_idempotency_key(&mut db, "m", "old2", "p2", &at(0));
    save_idempotency_key(&mut db, "m", "old3", "p3", &at(0));
    save_idempotency_key(&mut db, "m", "young", "p4", &at(1));
    let now = at(day + 1);
    assert_eq!(prune_idempotency_keys(&mut db, 1, 2, &now), 2);
    assert_eq!(prune_idempotency_keys(&mut db, 1, 2, &now), 1);
    assert_eq!(prune_idempotency_keys(&mut db, 1, 2, &now), 0);
    assert_eq!(
        find_payment_id_by_idempotency_key(&db, "m", "young").as_deref(),
        Some("p4")
    );
    assert_eq!(find_payment_id_by_idempotency_key(&db, "m", "old3"), None);
}

#[test]
fn pruning_does_not_confuse_keys_that_spell_alike() {
    let mut db = Db::new();
    save_idempotency_key(&mut db, "ab", "c", "p1", &at(0));
    save_idempotency_key(&mut db, "a", "bc", "p2", &at(90_000));
    assert_eq!(prune_idempotency_keys(&mut db, 1, 10, &at(90_000)), 1);
    assert_eq!(
        find_payment_id_by_idempotency_key(&db, "a", "bc").as_deref(),
        Some("p2")
    );
}

#[test]
fn state_reads_back() {
    let mut db = Db::new();
    assert_eq!(get_kv(&db, "cursor"), None);
    set_kv(&mut db, "cursor", "17", &at(0));
    set_kv(&mut db, "other", "x", &at(0));
    set_kv(&mut db, "cursor", "18", &at(1));
    assert_eq!(get_kv(&db, "cursor").as_deref(), Some("18"));
    assert_eq!(get_kv(&db, "other").as_deref(), Some("x"));
    assert_eq!(db.kv_state.len(), 2);
}

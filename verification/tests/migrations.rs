use stellargate::db::migration::backfill_processed_transactions;
use stellargate::db::{
    backfill_asset_issuers, create_payment, create_webhook_delivery, list_pending, migrate,
    schema_changes, AcceptedAsset, Db, NewPayment,
};
use stellargate::timestamp::Moment;

fn at(secs: i64) -> Moment {
    Moment::at(1_777_474_800 + secs).unwrap()
}

fn add(db: &mut Db, id: &str, asset: &str, issuer: Option<&str>) {
    let new = NewPayment {
        id,
        merchant_id: "m1",
        destination_address: "GDEST",
        memo: id,
        amount: "10",
        asset,
        asset_issuer: issuer,
        webhook_url: None,
        ttl_secs: 3600,
    };
    create_payment(db, new, &at(0)).unwrap();
}

fn asset(code: &str, issuer: Option<&str>) -> AcceptedAsset {
    AcceptedAsset {
        code: code.to_string(),
        issuer: issuer.map(|s| s.to_string()),
    }
}

fn columns(names: &[&str]) -> Vec<String> {
    names.iter().map(|s| s.to_string()).collect()
}

#[test]
fn missing_columns_are_added() {
    assert_eq!(
        schema_changes(&columns(&["id", "asset"]), &columns(&["id"])),
        vec![
            "ALTER TABLE payments ADD COLUMN asset_issuer TEXT",
            "ALTER TABLE webhook_deliveries ADD COLUMN acknowledged_at TEXT",
        ]
    );
    assert_eq!(
        schema_changes(&columns(&["id", "asset_issuer"]), &columns(&["id"])),
        vec!["ALTER TABLE webhook_deliveries ADD COLUMN acknowledged_at TEXT"]
    );
    assert!(schema_changes(
        &columns(&["asset_issuer"]),
        &columns(&["id", "acknowledged_at"])
    )
    .is_empty());
}

#[test]
fn missing_issuers_are_filled() {
    let mut db = Db::new();
    add(&mut db, "native", "XLM", None);
    add(&mut db, "missing", "usdc", None);
    add(&mut db, "empty", "USDC", Some(""));
    add(&mut db, "set", "USDC", Some("GOTHER"));
    let accepted = vec![asset("XLM", None), asset("USDC", Some("GUSDC"))];
    backfill_asset_issuers(&mut db, &accepted);
    let issuers: Vec<Option<&str>> = db
        .payments
        .iter()
        .map(|p| p.asset_issuer.as_deref())
        .collect();
    assert_eq!(
        issuers,
        vec![None, Some("GUSDC"), Some("GUSDC"), Some("GOTHER")]
    );
}

#[test]
fn first_listed_issuer_wins() {
    let mut db = Db::new();
    add(&mut db, "p", "USDC", None);
    let accepted = vec![
        asset("EURC", Some("GEURC")),
        asset("usdc", Some("GFIRST")),
        asset("USDC", Some("GSECOND")),
    ];
    backfill_asset_issuers(&mut db, &accepted);
    backfill_asset_issuers(&mut db, &accepted);
    assert_eq!(db.payments[0].asset_issuer.as_deref(), Some("GFIRST"));
}

#[test]
fn legacy_credits_are_recorded_once() {
    let mut db = Db::new();
    for id in ["paid", "unpaid", "unhashed", "garbled"] {
        add(&mut db, id, "XLM", None);
    }
    db.payments[0].tx_hash = Some("t1".to_string());
    db.payments[0].paid_amount = Some("10.5".to_string());
    db.payments[2].tx_hash = Some(String::new());
    db.payments[2].paid_amount = Some("1".to_string());
    db.payments[3].tx_hash = Some("t2".to_string());
    db.payments[3].paid_amount = Some("much".to_string());
    backfill_processed_transactions(&mut db);
    backfill_processed_transactions(&mut db);
    assert_eq!(db.processed_transactions.len(), 1);
    assert_eq!(db.processed_transactions[0].payment_id, "paid");
    assert_eq!(db.processed_transactions[0].tx_hash, "t1");
    assert_eq!(db.processed_transactions[0].amount_stroops, 105_000_000);
}

#[test]
fn upgrade_repairs_legacy_timestamps() {
    let mut db = Db::new();
    add(&mut db, "p", "XLM", None);
    create_webhook_delivery(&mut db, "d", "p", "u", "{}", None, &at(0)).unwrap();
    db.payments[0].expires_at = "2026-04-29 16:00:00".to_string();
    db.webhook_deliveries[0].created_at = "2026-04-29T15:00:00".to_string();
    // A blank sorts before `T`: the row reads as expired all day long.
    assert!(list_pending(&db, &at(0)).is_empty());
    migrate(&mut db);
    assert_eq!(db.payments[0].expires_at, "2026-04-29T16:00:00Z");
    assert_eq!(db.webhook_deliveries[0].created_at, "2026-04-29T15:00:00Z");
    assert_eq!(list_pending(&db, &at(0)).len(), 1);
    assert!(list_pending(&db, &at(3600)).is_empty());
}

#[test]
fn upgrade_runs_once() {
    let mut db = Db::new();
    add(&mut db, "p", "XLM", None);
    db.payments[0].created_at = "2026-04-29 15:00:00".to_string();
    db.payments[0].tx_hash = Some("t".to_string());
    db.payments[0].paid_amount = Some("3".to_string());
    migrate(&mut db);
    migrate(&mut db);
    assert_eq!(db.payments[0].created_at, "2026-04-29T15:00:00Z");
    assert_eq!(db.processed_transactions.len(), 1);
    assert_eq!(db.processed_transactions[0].amount_stroops, 30_000_000);
}

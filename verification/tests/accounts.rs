use stellargate::db::{
    count_active_keys_for_merchant, create_api_key, create_merchant, find_api_key_by_hash,
    find_merchant_by_key_hash, get_api_key, get_merchant, list_api_keys_for_merchant,
    revoke_api_key, touch_api_key, Db, DbError,
};
use stellargate::timestamp::Moment;

fn at(secs: i64) -> Moment {
    Moment::at(1_777_474_800 + secs).unwrap()
}

fn two_keys() -> Db {
    let mut db = Db::new();
    create_merchant(&mut db, "m1", "hm", &at(0)).unwrap();
    create_api_key(&mut db, "k1", "m1", "h1", "sg_1", Some("first"), &at(0)).unwrap();
    create_api_key(&mut db, "k2", "m1", "h2", "sg_2", None, &at(1)).unwrap();
    db
}

#[test]
fn created_merchant_is_fetched() {
    let mut db = Db::new();
    let m = create_merchant(&mut db, "m1", "hash", &at(0)).unwrap();
    assert_eq!(m.created_at, "2026-04-29T15:00:00Z");
    assert_eq!(get_merchant(&db, "m1").unwrap().api_key_hash, "hash");
    assert_eq!(find_merchant_by_key_hash(&db, "hash").unwrap().id, "m1");
    assert!(get_merchant(&db, "m2").is_none());
    assert!(find_merchant_by_key_hash(&db, "other").is_none());
    assert_eq!(
        create_merchant(&mut db, "m1", "other", &at(1)).unwrap_err(),
        DbError::DuplicateKey
    );
}

#[test]
fn created_key_is_fetched_and_active() {
    let db = two_keys();
    let k = get_api_key(&db, "k1").unwrap();
    assert_eq!(k.merchant_id, "m1");
    assert_eq!(k.prefix, "sg_1");
    assert_eq!(k.label.as_deref(), Some("first"));
    assert_eq!(k.last_used_at, None);
    assert_eq!(k.revoked_at, None);
    assert_eq!(find_api_key_by_hash(&db, "h2").unwrap().id, "k2");
    assert!(find_api_key_by_hash(&db, "h3").is_none());
    assert_eq!(count_active_keys_for_merchant(&db, "m1"), 2);
    assert_eq!(count_active_keys_for_merchant(&db, "m2"), 0);
}

#[test]
fn duplicate_key_is_refused() {
    let mut db = two_keys();
    assert_eq!(
        create_api_key(&mut db, "k1", "m2", "h9", "sg_9", None, &at(2)).unwrap_err(),
        DbError::DuplicateKey
    );
    assert_eq!(db.api_keys.len(), 2);
}

#[test]
fn keys_are_listed_newest_first() {
    let db = two_keys();
    let listed = list_api_keys_for_merchant(&db, "m1");
    assert_eq!(listed.len(), 2);
    assert_eq!(listed[0].id, "k2");
    assert_eq!(listed[1].id, "k1");
    assert!(list_api_keys_for_merchant(&db, "m2").is_empty());
}

#[test]
fn use_of_a_key_is_recorded() {
    let mut db = two_keys();
    touch_api_key(&mut db, "h1", &at(7));
    assert_eq!(
        get_api_key(&db, "k1").unwrap().last_used_at.as_deref(),
        Some("2026-04-29T15:00:07Z")
    );
    assert_eq!(get_api_key(&db, "k2").unwrap().last_used_at, None);
}

#[test]
fn key_is_revoked_once() {
    let mut db = two_keys();
    assert!(revoke_api_key(&mut db, "k1", "m1", &at(5)));
    assert!(!revoke_api_key(&mut db, "k1", "m1", &at(6)));
    assert_eq!(
        get_api_key(&db, "k1").unwrap().revoked_at.as_deref(),
        Some("2026-04-29T15:00:05Z")
    );
    assert_eq!(count_active_keys_for_merchant(&db, "m1"), 1);
}

#[test]
fn merchant_cannot_revoke_the_key_of_another() {
    let mut db = two_keys();
    assert!(!revoke_api_key(&mut db, "k1", "m2", &at(5)));
    assert!(!revoke_api_key(&mut db, "k9", "m1", &at(5)));
    assert_eq!(count_active_keys_for_merchant(&db, "m1"), 2);
}

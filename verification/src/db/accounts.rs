//! Merchants and their API keys.
use vstd::prelude::*;

use crate::db::rows::{ApiKey, ApiKeyView, Merchant, MerchantView};
use crate::db::{Db, DbError, DbView};
use crate::table;
use crate::table::{Change, Condition, RowOrder, Stored};
use crate::text;
use crate::timestamp;
use crate::timestamp::Moment;

verus! {

impl DbView {
    /// Whether a merchant with this id exists.
    pub open spec fn has_merchant(self, id: Seq<char>) -> bool {
        exists|i: int| 0 <= i < self.merchants.len() && (#[trigger] self.merchants[i]).id == id
    }

    /// The merchant with this id, handed out.
    pub open spec fn merchant(self, id: Seq<char>) -> Option<MerchantView> {
        match table::first(self.merchants, |m: MerchantView| m.id == id) {
            Some(m) => Some(m.normalized()),
            None => None,
        }
    }

    /// The merchant with this key hash, handed out.
    pub open spec fn merchant_by_hash(self, hash: Seq<char>) -> Option<MerchantView> {
        match table::first(self.merchants, |m: MerchantView| m.api_key_hash == hash) {
            Some(m) => Some(m.normalized()),
            None => None,
        }
    }

    /// Whether an API key with this id exists.
    pub open spec fn has_api_key(self, id: Seq<char>) -> bool {
        exists|i: int| 0 <= i < self.api_keys.len() && (#[trigger] self.api_keys[i]).id == id
    }

    /// The API key with this id, handed out.
    pub open spec fn api_key(self, id: Seq<char>) -> Option<ApiKeyView> {
        match table::first(self.api_keys, |k: ApiKeyView| k.id == id) {
            Some(k) => Some(k.normalized()),
            None => None,
        }
    }

    /// The API key with this hash, handed out.
    pub open spec fn api_key_by_hash(self, hash: Seq<char>) -> Option<ApiKeyView> {
        match table::first(self.api_keys, |k: ApiKeyView| k.key_hash == hash) {
            Some(k) => Some(k.normalized()),
            None => None,
        }
    }

    /// The API keys of a merchant, newest first, handed out.
    pub open spec fn api_keys_of(self, merchant_id: Seq<char>) -> Seq<ApiKeyView> {
        table::sorted(
            self.api_keys.filter(|k: ApiKeyView| k.merchant_id == merchant_id),
            newest_key_first(),
        ).map_values(|k: ApiKeyView| k.normalized())
    }

    /// The store after an API key was used.
    pub open spec fn after_touch(self, key_hash: Seq<char>, now: int) -> DbView {
        DbView {
            api_keys: table::edited(
                self.api_keys,
                |k: ApiKeyView| k.key_hash == key_hash,
                |k: ApiKeyView|
                    ApiKeyView { last_used_at: Some(timestamp::timestamp_text(now)), ..k },
            ),
            ..self
        }
    }

    /// Whether a merchant has an API key with this id that was not revoked.
    pub open spec fn can_revoke(self, id: Seq<char>, merchant_id: Seq<char>) -> bool {
        exists|i: int|
            0 <= i < self.api_keys.len() && revocable(#[trigger] self.api_keys[i], id, merchant_id)
    }

    /// The store after a merchant revoked an API key: only a key of that merchant
    /// that was not revoked before changes.
    pub open spec fn after_revocation(
        self,
        id: Seq<char>,
        merchant_id: Seq<char>,
        now: int,
    ) -> DbView {
        DbView {
            api_keys: table::edited(
                self.api_keys,
                |k: ApiKeyView| revocable(k, id, merchant_id),
                |k: ApiKeyView|
                    ApiKeyView { revoked_at: Some(timestamp::timestamp_text(now)), ..k },
            ),
            ..self
        }
    }

    /// The number of a merchant's API keys that were not revoked.
    pub open spec fn active_keys(self, merchant_id: Seq<char>) -> nat {
        self.api_keys.filter(
            |k: ApiKeyView| k.merchant_id == merchant_id && k.revoked_at is None,
        ).len()
    }
}

/// Whether a merchant can revoke a key with an id.
pub open spec fn revocable(k: ApiKeyView, id: Seq<char>, merchant_id: Seq<char>) -> bool {
    k.id == id && k.merchant_id == merchant_id && k.revoked_at is None
}

/// Newest first.
pub open spec fn newest_key_first() -> spec_fn(ApiKeyView, ApiKeyView) -> bool {
    |a: ApiKeyView, b: ApiKeyView| text::lex_lt(b.created_at, a.created_at)
}

struct MerchantId<'a> {
    id: &'a str,
}

impl<'a> Condition<Merchant> for MerchantId<'a> {
    closed spec fn holds(&self, row: MerchantView) -> bool {
        row.id == self.id@
    }

    fn check(&self, row: &Merchant) -> (r: bool) {
        text::str_eq(row.id.as_str(), self.id)
    }
}

struct MerchantHash<'a> {
    hash: &'a str,
}

impl<'a> Condition<Merchant> for MerchantHash<'a> {
    closed spec fn holds(&self, row: MerchantView) -> bool {
        row.api_key_hash == self.hash@
    }

    fn check(&self, row: &Merchant) -> (r: bool) {
        text::str_eq(row.api_key_hash.as_str(), self.hash)
    }
}

/// Creates a merchant.
pub fn create_merchant(pool: &mut Db, id: &str, api_key_hash: &str, now: &Moment) -> (r: Result<
    Merchant,
    DbError,
>)
    ensures
        match r {
            Ok(m) => {
                &&& !old(pool)@.has_merchant(id@)
                &&& m@ == (MerchantView {
                    id: id@,
                    api_key_hash: api_key_hash@,
                    created_at: timestamp::timestamp_text(now@),
                })
                &&& final(pool)@ == (DbView {
                    merchants: old(pool)@.merchants.push(m@),
                    ..old(pool)@
                })
            },
            Err(e) => {
                &&& e == DbError::DuplicateKey
                &&& old(pool)@.has_merchant(id@)
                &&& final(pool)@ == old(pool)@
            },
        },
        old(pool)@.inv() ==> final(pool)@.inv(),
{
    let c = MerchantId { id };
    let taken: usize = table::count(&pool.merchants, &c);
    proof {
        let p = |m: MerchantView| m.id == id@;
        assert(table::predicate::<Merchant, MerchantId>(c) =~= p);
        table::lemma_filter_nonempty(pool@.merchants, p);
    }
    if taken > 0 {
        return Err(DbError::DuplicateKey);
    }
    let row = Merchant {
        id: id.to_owned(),
        api_key_hash: api_key_hash.to_owned(),
        created_at: now.text(),
    };
    let created = row.hand_out();
    proof {
        timestamp::lemma_text_is_normal(now@);
    }
    pool.merchants.push(row);
    assert(pool@.merchants =~= old(pool)@.merchants.push(created@));
    Ok(created)
}

/// Fetches a merchant.
pub fn get_merchant(pool: &Db, id: &str) -> (r: Option<Merchant>)
    ensures
        table::opt_row(r) == pool@.merchant(id@),
{
    let c = MerchantId { id };
    assert(table::predicate::<Merchant, MerchantId>(c) =~= (|m: MerchantView| m.id == id@));
    table::hand_out_opt(table::find(&pool.merchants, &c))
}

/// The merchant with a key hash.
pub fn find_merchant_by_key_hash(pool: &Db, hash: &str) -> (r: Option<Merchant>)
    ensures
        table::opt_row(r) == pool@.merchant_by_hash(hash@),
{
    let c = MerchantHash { hash };
    assert(table::predicate::<Merchant, MerchantHash>(c) =~= (|m: MerchantView|
        m.api_key_hash == hash@));
    table::hand_out_opt(table::find(&pool.merchants, &c))
}

struct KeyId<'a> {
    id: &'a str,
}

impl<'a> Condition<ApiKey> for KeyId<'a> {
    closed spec fn holds(&self, row: ApiKeyView) -> bool {
        row.id == self.id@
    }

    fn check(&self, row: &ApiKey) -> (r: bool) {
        text::str_eq(row.id.as_str(), self.id)
    }
}

struct KeyHash<'a> {
    hash: &'a str,
    now: String,
}

impl<'a> Condition<ApiKey> for KeyHash<'a> {
    closed spec fn holds(&self, row: ApiKeyView) -> bool {
        row.key_hash == self.hash@
    }

    fn check(&self, row: &ApiKey) -> (r: bool) {
        text::str_eq(row.key_hash.as_str(), self.hash)
    }
}

impl<'a> Change<ApiKey> for KeyHash<'a> {
    closed spec fn changed(&self, row: ApiKeyView) -> ApiKeyView {
        ApiKeyView { last_used_at: Some(self.now@), ..row }
    }

    fn apply(&self, row: &ApiKey) -> (r: ApiKey) {
        let mut k = row.clone();
        k.last_used_at = Some(self.now.clone());
        k
    }
}

/// Creates an API key.
pub fn create_api_key(
    pool: &mut Db,
    id: &str,
    merchant_id: &str,
    key_hash: &str,
    prefix: &str,
    label: Option<&str>,
    now: &Moment,
) -> (r: Result<ApiKey, DbError>)
    ensures
        match r {
            Ok(k) => {
                &&& !old(pool)@.has_api_key(id@)
                &&& k@ == (ApiKeyView {
                    id: id@,
                    merchant_id: merchant_id@,
                    key_hash: key_hash@,
                    prefix: prefix@,
                    label: text::opt_str_view(label),
                    created_at: timestamp::timestamp_text(now@),
                    last_used_at: None,
                    revoked_at: None,
                })
                &&& final(pool)@ == (DbView {
                    api_keys: old(pool)@.api_keys.push(k@),
                    ..old(pool)@
                })
            },
            Err(e) => {
                &&& e == DbError::DuplicateKey
                &&& old(pool)@.has_api_key(id@)
                &&& final(pool)@ == old(pool)@
            },
        },
        old(pool)@.inv() ==> final(pool)@.inv(),
{
    let c = KeyId { id };
    let taken: usize = table::count(&pool.api_keys, &c);
    proof {
        let p = |k: ApiKeyView| k.id == id@;
        assert(table::predicate::<ApiKey, KeyId>(c) =~= p);
        table::lemma_filter_nonempty(pool@.api_keys, p);
    }
    if taken > 0 {
        return Err(DbError::DuplicateKey);
    }
    let row = ApiKey {
        id: id.to_owned(),
        merchant_id: merchant_id.to_owned(),
        key_hash: key_hash.to_owned(),
        prefix: prefix.to_owned(),
        label: text::own_opt(label),
        created_at: now.text(),
        last_used_at: None,
        revoked_at: None,
    };
    let created = row.hand_out();
    proof {
        timestamp::lemma_text_is_normal(now@);
    }
    pool.api_keys.push(row);
    assert(pool@.api_keys =~= old(pool)@.api_keys.push(created@));
    Ok(created)
}

/// Fetches an API key.
pub fn get_api_key(pool: &Db, id: &str) -> (r: Option<ApiKey>)
    ensures
        table::opt_row(r) == pool@.api_key(id@),
{
    let c = KeyId { id };
    assert(table::predicate::<ApiKey, KeyId>(c) =~= (|k: ApiKeyView| k.id == id@));
    table::hand_out_opt(table::find(&pool.api_keys, &c))
}

/// The API key with a hash, revoked or not.
pub fn find_api_key_by_hash(pool: &Db, hash: &str) -> (r: Option<ApiKey>)
    ensures
        table::opt_row(r) == pool@.api_key_by_hash(hash@),
{
    let c = KeyHash { hash, now: String::new() };
    assert(table::predicate::<ApiKey, KeyHash>(c) =~= (|k: ApiKeyView| k.key_hash == hash@));
    table::hand_out_opt(table::find(&pool.api_keys, &c))
}

struct KeysOf<'a> {
    merchant_id: &'a str,
    active: bool,
}

impl<'a> Condition<ApiKey> for KeysOf<'a> {
    closed spec fn holds(&self, row: ApiKeyView) -> bool {
        row.merchant_id == self.merchant_id@ && (self.active ==> row.revoked_at is None)
    }

    fn check(&self, row: &ApiKey) -> (r: bool) {
        text::str_eq(row.merchant_id.as_str(), self.merchant_id) && (!self.active
            || row.revoked_at.is_none())
    }
}

struct NewestKeyFirst;

impl RowOrder<ApiKey> for NewestKeyFirst {
    closed spec fn before(a: ApiKeyView, b: ApiKeyView) -> bool {
        newest_key_first()(a, b)
    }

    fn is_before(a: &ApiKey, b: &ApiKey) -> (r: bool) {
        text::str_lt(b.created_at.as_str(), a.created_at.as_str())
    }
}

/// The API keys of a merchant, newest first.
pub fn list_api_keys_for_merchant(pool: &Db, merchant_id: &str) -> (r: Vec<ApiKey>)
    ensures
        table::views(r@) == pool@.api_keys_of(merchant_id@),
{
    let c = KeysOf { merchant_id, active: false };
    let hits = table::select(&pool.api_keys, &c);
    proof {
        assert(table::predicate::<ApiKey, KeysOf>(c) =~= (|k: ApiKeyView|
            k.merchant_id == merchant_id@));
        assert(table::relation::<ApiKey, NewestKeyFirst>() =~= newest_key_first());
        assert(table::form::<ApiKey>() =~= (|k: ApiKeyView| k.normalized()));
    }
    let in_order = table::sort::<ApiKey, NewestKeyFirst>(&hits);
    table::hand_out_all(&in_order)
}

/// Records that an API key was used.
pub fn touch_api_key(pool: &mut Db, key_hash: &str, now: &Moment)
    ensures
        final(pool)@ == old(pool)@.after_touch(key_hash@, now@),
        old(pool)@.inv() ==> final(pool)@.inv(),
{
    let c = KeyHash { hash: key_hash, now: now.text() };
    table::edit(&mut pool.api_keys, &c);
    proof {
        assert(table::predicate::<ApiKey, KeyHash>(c) =~= (|k: ApiKeyView|
            k.key_hash == key_hash@));
        assert(table::change::<ApiKey, KeyHash>(c) =~= (|k: ApiKeyView|
            ApiKeyView { last_used_at: Some(timestamp::timestamp_text(now@)), ..k }));
        lemma_same_key_ids_keep_inv(old(pool)@, pool@);
    }
}

struct Revocation<'a> {
    id: &'a str,
    merchant_id: &'a str,
    now: String,
}

impl<'a> Condition<ApiKey> for Revocation<'a> {
    closed spec fn holds(&self, row: ApiKeyView) -> bool {
        revocable(row, self.id@, self.merchant_id@)
    }

    fn check(&self, row: &ApiKey) -> (r: bool) {
        text::str_eq(row.id.as_str(), self.id) && text::str_eq(
            row.merchant_id.as_str(),
            self.merchant_id,
        ) && row.revoked_at.is_none()
    }
}

impl<'a> Change<ApiKey> for Revocation<'a> {
    closed spec fn changed(&self, row: ApiKeyView) -> ApiKeyView {
        ApiKeyView { revoked_at: Some(self.now@), ..row }
    }

    fn apply(&self, row: &ApiKey) -> (r: ApiKey) {
        let mut k = row.clone();
        k.revoked_at = Some(self.now.clone());
        k
    }
}

/// Revokes a merchant's API key; whether there was such a key that had not been
/// revoked.
pub fn revoke_api_key(pool: &mut Db, id: &str, merchant_id: &str, now: &Moment) -> (r: bool)
    ensures
        r == old(pool)@.can_revoke(id@, merchant_id@),
        final(pool)@ == old(pool)@.after_revocation(id@, merchant_id@, now@),
        old(pool)@.inv() ==> final(pool)@.inv(),
{
    let c = Revocation { id, merchant_id, now: now.text() };
    let n: usize = table::edit(&mut pool.api_keys, &c);
    proof {
        let p = |k: ApiKeyView| revocable(k, id@, merchant_id@);
        assert(table::predicate::<ApiKey, Revocation>(c) =~= p);
        assert(table::change::<ApiKey, Revocation>(c) =~= (|k: ApiKeyView|
            ApiKeyView { revoked_at: Some(timestamp::timestamp_text(now@)), ..k }));
        table::lemma_filter_nonempty(old(pool)@.api_keys, p);
        lemma_same_key_ids_keep_inv(old(pool)@, pool@);
    }
    n > 0
}

/// The number of a merchant's API keys that were not revoked.
pub fn count_active_keys_for_merchant(pool: &Db, merchant_id: &str) -> (r: i64)
    ensures
        r == table::row_count(pool@.active_keys(merchant_id@)),
{
    let c = KeysOf { merchant_id, active: true };
    assert(table::predicate::<ApiKey, KeysOf>(c) =~= (|k: ApiKeyView|
        k.merchant_id == merchant_id@ && k.revoked_at is None));
    table::signed_count(table::count(&pool.api_keys, &c))
}

/// A change of API keys that keeps their ids keeps the primary keys.
proof fn lemma_same_key_ids_keep_inv(before: DbView, after: DbView)
    requires
        after == (DbView { api_keys: after.api_keys, ..before }),
        after.api_keys.len() == before.api_keys.len(),
        forall|i: int|
            0 <= i < before.api_keys.len() ==> (#[trigger] after.api_keys[i]).id
                == before.api_keys[i].id,
    ensures
        before.inv() ==> after.inv(),
{
    if before.inv() {
        assert forall|i: int, j: int| 0 <= i < j < after.api_keys.len() implies (
        #[trigger] after.api_keys[i]).id != (#[trigger] after.api_keys[j]).id by {
            assert(before.api_keys[i].id != before.api_keys[j].id);
        }
    }
}

/// A merchant that was created is fetched as it was returned.
pub proof fn law_created_merchant_is_fetched(v: DbView, row: MerchantView)
    requires
        !v.has_merchant(row.id),
        row.normalized() == row,
    ensures
        (DbView { merchants: v.merchants.push(row), ..v }).merchant(row.id) == Some(row),
{
    reveal(Seq::filter);
    let p = |m: MerchantView| m.id == row.id;
    assert(v.merchants.push(row).drop_last() =~= v.merchants);
    table::lemma_filter_nonempty(v.merchants, p);
    if v.merchants.filter(p).len() > 0 {
        let i = choose|i: int| 0 <= i < v.merchants.len() && p(#[trigger] v.merchants[i]);
        assert(v.merchants[i].id == row.id);
    }
}

/// An API key that was created is fetched as it was returned, and is active.
pub proof fn law_created_key_is_fetched(v: DbView, row: ApiKeyView)
    requires
        !v.has_api_key(row.id),
        row.normalized() == row,
        row.revoked_at is None,
    ensures
        (DbView { api_keys: v.api_keys.push(row), ..v }).api_key(row.id) == Some(row),
        (DbView { api_keys: v.api_keys.push(row), ..v }).active_keys(row.merchant_id)
            == v.active_keys(row.merchant_id) + 1,
{
    reveal(Seq::filter);
    let p = |k: ApiKeyView| k.id == row.id;
    assert(v.api_keys.push(row).drop_last() =~= v.api_keys);
    table::lemma_filter_nonempty(v.api_keys, p);
    if v.api_keys.filter(p).len() > 0 {
        let i = choose|i: int| 0 <= i < v.api_keys.len() && p(#[trigger] v.api_keys[i]);
        assert(v.api_keys[i].id == row.id);
    }
}

/// A key is revoked once: a second revocation is refused and changes nothing,
/// and the time of the first stays.
pub proof fn law_key_is_revoked_once(
    v: DbView,
    id: Seq<char>,
    merchant_id: Seq<char>,
    now: int,
    later: int,
)
    ensures
        !v.after_revocation(id, merchant_id, now).can_revoke(id, merchant_id),
        v.after_revocation(id, merchant_id, now).after_revocation(id, merchant_id, later)
            == v.after_revocation(id, merchant_id, now),
{
    let after = v.after_revocation(id, merchant_id, now);
    assert forall|i: int| 0 <= i < after.api_keys.len() implies !revocable(
        #[trigger] after.api_keys[i],
        id,
        merchant_id,
    ) by {
        let k = v.api_keys[i];
        assert(after.api_keys[i] == if revocable(k, id, merchant_id) {
            ApiKeyView { revoked_at: Some(timestamp::timestamp_text(now)), ..k }
        } else {
            k
        });
    }
    assert(after.after_revocation(id, merchant_id, later).api_keys =~= after.api_keys);
}

/// A merchant cannot revoke another merchant's key.
pub proof fn law_revocation_is_scoped(
    v: DbView,
    id: Seq<char>,
    merchant_id: Seq<char>,
    now: int,
    i: int,
)
    requires
        0 <= i < v.api_keys.len(),
        v.api_keys[i].merchant_id != merchant_id,
    ensures
        v.after_revocation(id, merchant_id, now).api_keys[i] == v.api_keys[i],
{
}

/// A revocation that succeeds leaves the merchant one active key less.
pub proof fn law_revocation_deactivates_one_key(
    v: DbView,
    id: Seq<char>,
    merchant_id: Seq<char>,
    now: int,
)
    requires
        v.inv(),
        v.can_revoke(id, merchant_id),
    ensures
        v.after_revocation(id, merchant_id, now).active_keys(merchant_id) == v.active_keys(
            merchant_id,
        ) - 1,
{
    let k = choose|i: int|
        0 <= i < v.api_keys.len() && revocable(#[trigger] v.api_keys[i], id, merchant_id);
    let after = v.after_revocation(id, merchant_id, now);
    let stamp = timestamp::timestamp_text(now);
    assert(after.api_keys =~= v.api_keys.update(
        k,
        ApiKeyView { revoked_at: Some(stamp), ..v.api_keys[k] },
    )) by {
        assert forall|i: int| 0 <= i < v.api_keys.len() && i != k implies !revocable(
            #[trigger] v.api_keys[i],
            id,
            merchant_id,
        ) by {
            if i < k {
                assert(v.api_keys[i].id != v.api_keys[k].id);
            } else {
                assert(v.api_keys[k].id != v.api_keys[i].id);
            }
        }
    }
    let active = |x: ApiKeyView| x.merchant_id == merchant_id && x.revoked_at is None;
    table::lemma_filter_update(v.api_keys, active, k, after.api_keys[k]);
}

} // verus!

//! Every write keeps the form of stored timestamps.
use vstd::prelude::*;

use crate::db::deliveries;
use crate::db::idempotency;
use crate::db::migration;
use crate::db::migration_laws;
use crate::db::payments;
use crate::db::rows::{
    ApiKeyView, IdempotencyKeyView, MerchantView, NewPayment, PaymentView,
    WebhookDeliveryView,
};
use crate::db::DbView;
use crate::table;
use crate::text;
use crate::timestamp;

verus! {

/// Whether a timestamp has the form that every stored one must have.
pub open spec fn stamped(ts: Seq<char>) -> bool {
    timestamp::matches_like(timestamp::TS_PATTERN@, ts)
}

/// Whether an optional timestamp, where it is there, has that form.
pub open spec fn opt_stamped(ts: Option<Seq<char>>) -> bool {
    ts matches Some(t) ==> stamped(t)
}

impl PaymentView {
    /// Whether the timestamps of a payment have their form.
    pub open spec fn well_stamped(self) -> bool {
        stamped(self.created_at) && stamped(self.updated_at) && stamped(self.expires_at)
    }
}

impl ApiKeyView {
    /// Whether the timestamps of an API key have their form.
    pub open spec fn well_stamped(self) -> bool {
        stamped(self.created_at) && opt_stamped(self.last_used_at) && opt_stamped(self.revoked_at)
    }
}

impl WebhookDeliveryView {
    /// Whether the timestamps of a delivery have their form.
    pub open spec fn well_stamped(self) -> bool {
        stamped(self.created_at) && opt_stamped(self.last_attempt) && opt_stamped(
            self.acknowledged_at,
        )
    }
}

impl DbView {
    /// Whether every stored timestamp has its form.
    pub open spec fn well_stamped(self) -> bool {
        &&& forall|i: int|
            0 <= i < self.payments.len() ==> (#[trigger] self.payments[i]).well_stamped()
        &&& forall|i: int|
            0 <= i < self.idempotency_keys.len() ==> stamped(
                (#[trigger] self.idempotency_keys[i]).created_at,
            )
        &&& forall|i: int|
            0 <= i < self.kv_state.len() ==> stamped((#[trigger] self.kv_state[i]).updated_at)
        &&& forall|i: int|
            0 <= i < self.merchants.len() ==> stamped((#[trigger] self.merchants[i]).created_at)
        &&& forall|i: int|
            0 <= i < self.api_keys.len() ==> (#[trigger] self.api_keys[i]).well_stamped()
        &&& forall|i: int|
            0 <= i < self.webhook_deliveries.len() ==> (
            #[trigger] self.webhook_deliveries[i]).well_stamped()
    }
}

/// Creating, settling and sweeping payments keeps the form of timestamps.
pub proof fn law_payment_writes_are_stamped(
    v: DbView,
    new: NewPayment,
    stroops: int,
    id: Seq<char>,
    status: Seq<char>,
    tx_hash: Option<Seq<char>>,
    paid_amount: Option<Seq<char>>,
    batch: int,
    now: int,
)
    requires
        v.well_stamped(),
        timestamp::in_range(now),
    ensures
        timestamp::in_range(now + new.ttl_secs) ==> (DbView {
            payments: v.payments.push(payments::new_payment_row(new, stroops, now)),
            ..v
        }).well_stamped(),
        v.after_settlement(id, status, tx_hash, paid_amount, now).well_stamped(),
        v.after_sweep(batch, now).well_stamped(),
{
    timestamp::lemma_text_matches_pattern(now);
    if timestamp::in_range(now + new.ttl_secs) {
        timestamp::lemma_text_matches_pattern(now + new.ttl_secs);
    }
    let settled = v.after_settlement(id, status, tx_hash, paid_amount, now);
    assert forall|i: int| 0 <= i < settled.payments.len() implies (
    #[trigger] settled.payments[i]).well_stamped() by {
        assert(v.payments[i].well_stamped());
    }
    let swept = v.after_sweep(batch, now);
    assert forall|i: int| 0 <= i < swept.payments.len() implies (
    #[trigger] swept.payments[i]).well_stamped() by {
        assert(v.payments[i].well_stamped());
    }
}

/// Recording, and pruning, idempotency keys, credits and state keeps the form of
/// timestamps.
pub proof fn law_state_writes_are_stamped(
    v: DbView,
    merchant_id: Seq<char>,
    key: Seq<char>,
    payment_id: Seq<char>,
    tx_hash: Seq<char>,
    amount: int,
    value: Seq<char>,
    retention_days: int,
    batch_size: int,
    now: int,
)
    requires
        v.well_stamped(),
        timestamp::in_range(now),
    ensures
        v.after_minting(merchant_id, key, payment_id, now).well_stamped(),
        v.after_key_pruning(retention_days, batch_size, now).well_stamped(),
        v.after_credit(payment_id, tx_hash, amount).well_stamped(),
        v.after_set(key, value, now).well_stamped(),
{
    timestamp::lemma_text_matches_pattern(now);
    let pruned = v.keys_to_prune(retention_days, batch_size, now);
    let kept = v.after_key_pruning(retention_days, batch_size, now).idempotency_keys;
    let q = |k: IdempotencyKeyView| !idempotency::holds_key(pruned, k.key());
    assert forall|i: int| 0 <= i < kept.len() implies stamped((#[trigger] kept[i]).created_at) by {
        table::lemma_filter_members(v.idempotency_keys, q, kept[i]);
        assert(kept.contains(kept[i]));
        let j = choose|j: int|
            0 <= j < v.idempotency_keys.len() && v.idempotency_keys[j] == kept[i];
        assert(stamped(v.idempotency_keys[j].created_at));
    }
    let set = v.after_set(key, value, now);
    assert forall|i: int| 0 <= i < set.kv_state.len() implies stamped(
        (#[trigger] set.kv_state[i]).updated_at,
    ) by {
        if i < v.kv_state.len() {
            assert(stamped(v.kv_state[i].updated_at));
        }
    }
}

/// Creating merchants and API keys, and using and revoking keys, keeps the form
/// of timestamps.
pub proof fn law_account_writes_are_stamped(
    v: DbView,
    merchant: MerchantView,
    key: ApiKeyView,
    id: Seq<char>,
    merchant_id: Seq<char>,
    now: int,
)
    requires
        v.well_stamped(),
        timestamp::in_range(now),
        merchant.created_at == timestamp::timestamp_text(now),
        key.created_at == timestamp::timestamp_text(now),
        key.last_used_at is None,
        key.revoked_at is None,
    ensures
        (DbView { merchants: v.merchants.push(merchant), ..v }).well_stamped(),
        (DbView { api_keys: v.api_keys.push(key), ..v }).well_stamped(),
        v.after_touch(id, now).well_stamped(),
        v.after_revocation(id, merchant_id, now).well_stamped(),
{
    timestamp::lemma_text_matches_pattern(now);
    let touched = v.after_touch(id, now);
    assert forall|i: int| 0 <= i < touched.api_keys.len() implies (
    #[trigger] touched.api_keys[i]).well_stamped() by {
        assert(v.api_keys[i].well_stamped());
    }
    let revoked = v.after_revocation(id, merchant_id, now);
    assert forall|i: int| 0 <= i < revoked.api_keys.len() implies (
    #[trigger] revoked.api_keys[i]).well_stamped() by {
        assert(v.api_keys[i].well_stamped());
    }
}

/// Creating, attempting, acknowledging and pruning deliveries keeps the form of
/// timestamps.
pub proof fn law_delivery_writes_are_stamped(
    v: DbView,
    row: WebhookDeliveryView,
    id: Seq<char>,
    status: Seq<char>,
    ids: Seq<String>,
    retention_days: int,
    batch_size: int,
    now: int,
)
    requires
        v.well_stamped(),
        timestamp::in_range(now),
        row.created_at == timestamp::timestamp_text(now),
        row.last_attempt is None,
        row.acknowledged_at is None,
    ensures
        (DbView { webhook_deliveries: v.webhook_deliveries.push(row), ..v }).well_stamped(),
        v.after_attempt(id, status, now).well_stamped(),
        v.after_acknowledgement(ids, now).well_stamped(),
        v.after_delivery_pruning(retention_days, batch_size, now).well_stamped(),
{
    timestamp::lemma_text_matches_pattern(now);
    let attempted = v.after_attempt(id, status, now);
    assert forall|i: int| 0 <= i < attempted.webhook_deliveries.len() implies (
    #[trigger] attempted.webhook_deliveries[i]).well_stamped() by {
        assert(v.webhook_deliveries[i].well_stamped());
    }
    let acknowledged = v.after_acknowledgement(ids, now);
    assert forall|i: int| 0 <= i < acknowledged.webhook_deliveries.len() implies (
    #[trigger] acknowledged.webhook_deliveries[i]).well_stamped() by {
        assert(v.webhook_deliveries[i].well_stamped());
    }
    let pruned = v.deliveries_to_prune(retention_days, batch_size, now);
    let kept = v.after_delivery_pruning(retention_days, batch_size, now).webhook_deliveries;
    let q = |d: WebhookDeliveryView| !deliveries::holds_id(pruned, d.id);
    assert forall|i: int| 0 <= i < kept.len() implies (#[trigger] kept[i]).well_stamped() by {
        table::lemma_filter_members(v.webhook_deliveries, q, kept[i]);
        assert(kept.contains(kept[i]));
        let j = choose|j: int|
            0 <= j < v.webhook_deliveries.len() && v.webhook_deliveries[j] == kept[i];
        assert(v.webhook_deliveries[j].well_stamped());
    }
}

/// Filling issuers keeps the form of timestamps.
pub proof fn law_issuer_backfill_is_stamped(
    v: DbView,
    accepted: Seq<migration::AcceptedAssetView>,
)
    requires
        v.well_stamped(),
    ensures
        v.after_issuers(accepted).well_stamped(),
{
    let after = v.after_issuers(accepted);
    assert forall|i: int| 0 <= i < after.payments.len() implies (
    #[trigger] after.payments[i]).well_stamped() by {
        assert(v.payments[i].well_stamped());
    }
}

/// Whether a timestamp is a legacy one, a date and time without offset, or already
/// in its form.
pub open spec fn repairable(ts: Seq<char>) -> bool {
    timestamp::looks_like_datetime(text::trimmed(ts)) || timestamp::has_timestamp_shape(ts)
}

/// Whether an optional timestamp, where it is there, can be repaired.
pub open spec fn opt_repairable(ts: Option<Seq<char>>) -> bool {
    ts matches Some(t) ==> repairable(t)
}

impl DbView {
    /// Whether every stored timestamp can be repaired.
    pub open spec fn is_repairable(self) -> bool {
        &&& forall|i: int|
            0 <= i < self.payments.len() ==> repairable((#[trigger] self.payments[i]).created_at)
                && repairable(self.payments[i].updated_at) && repairable(
                self.payments[i].expires_at,
            )
        &&& forall|i: int|
            0 <= i < self.idempotency_keys.len() ==> repairable(
                (#[trigger] self.idempotency_keys[i]).created_at,
            )
        &&& forall|i: int|
            0 <= i < self.kv_state.len() ==> repairable((#[trigger] self.kv_state[i]).updated_at)
        &&& forall|i: int|
            0 <= i < self.merchants.len() ==> repairable((#[trigger] self.merchants[i]).created_at)
        &&& forall|i: int|
            0 <= i < self.api_keys.len() ==> repairable((#[trigger] self.api_keys[i]).created_at)
                && opt_repairable(self.api_keys[i].last_used_at) && opt_repairable(
                self.api_keys[i].revoked_at,
            )
        &&& forall|i: int|
            0 <= i < self.webhook_deliveries.len() ==> repairable(
                (#[trigger] self.webhook_deliveries[i]).created_at,
            ) && opt_repairable(self.webhook_deliveries[i].last_attempt) && opt_repairable(
                self.webhook_deliveries[i].acknowledged_at,
            )
    }
}

/// The normal form of a timestamp that can be repaired has the form of stored
/// timestamps.
proof fn lemma_repaired(ts: Seq<char>)
    requires
        repairable(ts),
    ensures
        stamped(timestamp::normalized(ts)),
{
    reveal_strlit("____-__-__T__:__:__Z");
    let s = text::trimmed(ts);
    let t = timestamp::normalized(ts);
    if timestamp::looks_like_datetime(s) {
        assert(t[4] == s[4] && t[7] == s[7]);
        assert(t[13] == s.skip(11)[2] && t[16] == s.skip(11)[5]);
    } else {
        let d = ts.take(19);
        assert(timestamp::is_digit(d[0]));
        assert(d[0] == ts[0] && d[4] == ts[4] && d[7] == ts[7] && d[13] == ts[13] && d[16]
            == ts[16]);
        text::lemma_trim_bare(ts);
    }
}

/// An upgrade repairs legacy rows: it leaves every timestamp in the form of stored
/// timestamps.
pub proof fn law_migration_stamps(v: DbView)
    requires
        v.is_repairable(),
    ensures
        v.migrated().well_stamped(),
{
    assert forall|ts: Seq<char>| repairable(ts) implies stamped(
        #[trigger] timestamp::normalized(ts),
    ) by {
        lemma_repaired(ts);
    }
    let n = v.normalized();
    assert forall|i: int| 0 <= i < n.payments.len() implies (
    #[trigger] n.payments[i]).well_stamped() by {
        assert(repairable(v.payments[i].created_at));
    }
    assert forall|i: int| 0 <= i < n.idempotency_keys.len() implies stamped(
        (#[trigger] n.idempotency_keys[i]).created_at,
    ) by {
        assert(repairable(v.idempotency_keys[i].created_at));
    }
    assert forall|i: int| 0 <= i < n.kv_state.len() implies stamped(
        (#[trigger] n.kv_state[i]).updated_at,
    ) by {
        assert(repairable(v.kv_state[i].updated_at));
    }
    assert forall|i: int| 0 <= i < n.merchants.len() implies stamped(
        (#[trigger] n.merchants[i]).created_at,
    ) by {
        assert(repairable(v.merchants[i].created_at));
    }
    assert forall|i: int| 0 <= i < n.api_keys.len() implies (
    #[trigger] n.api_keys[i]).well_stamped() by {
        assert(repairable(v.api_keys[i].created_at));
    }
    assert forall|i: int| 0 <= i < n.webhook_deliveries.len() implies (
    #[trigger] n.webhook_deliveries[i]).well_stamped() by {
        assert(repairable(v.webhook_deliveries[i].created_at));
    }
    migration_laws::lemma_credits_touch_one_table(n, n.payments);
}

} // verus!

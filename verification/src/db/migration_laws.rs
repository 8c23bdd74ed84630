//! What holds of upgrades whatever the rows that they find.
use vstd::prelude::*;

use crate::db::migration;
use crate::db::migration::AcceptedAssetView;
use crate::db::rows;
use crate::db::rows::{
    ApiKeyView, IdempotencyKeyView, KvEntryView, MerchantView, PaymentView, WebhookDeliveryView,
};
use crate::db::DbView;
use crate::money;
use crate::text;
use crate::timestamp;

verus! {

/// A column is added once: tables that have both columns are left as they are.
pub proof fn law_columns_are_added_once(
    payments: Seq<String>,
    deliveries: Seq<String>,
    issuer_column: String,
    acknowledged_column: String,
)
    requires
        issuer_column@ == "asset_issuer"@,
        acknowledged_column@ == "acknowledged_at"@,
    ensures
        migration::schema_statements(
            payments.push(issuer_column),
            deliveries.push(acknowledged_column),
        ) == Seq::<Seq<char>>::empty(),
{
    assert(payments.push(issuer_column)[payments.len() as int]@ == "asset_issuer"@);
    assert(deliveries.push(acknowledged_column)[deliveries.len() as int]@ == "acknowledged_at"@);
    assert(migration::schema_statements(
        payments.push(issuer_column),
        deliveries.push(acknowledged_column),
    ) =~= Seq::<Seq<char>>::empty());
}

/// An issuer that is set is never changed.
pub proof fn law_set_issuer_is_untouched(
    issuer: Option<Seq<char>>,
    asset: Seq<char>,
    accepted: Seq<AcceptedAssetView>,
)
    requires
        !migration::is_missing(issuer),
    ensures
        migration::filled(issuer, asset, accepted) == issuer,
    decreases accepted.len(),
{
    if accepted.len() > 0 {
        law_set_issuer_is_untouched(issuer, asset, accepted.drop_last());
    }
}

/// Whether an entry of the allow-list names an issuer for an asset code.
pub open spec fn names_issuer(entry: AcceptedAssetView, asset: Seq<char>) -> bool {
    entry.issuer is Some && text::same_ignoring_case(asset, entry.code)
}

/// A native asset stays without an issuer: where no entry names an issuer for
/// the code, nothing is filled.
pub proof fn law_native_asset_stays_without_issuer(
    issuer: Option<Seq<char>>,
    asset: Seq<char>,
    accepted: Seq<AcceptedAssetView>,
)
    requires
        forall|i: int| 0 <= i < accepted.len() ==> !names_issuer(#[trigger] accepted[i], asset),
    ensures
        migration::filled(issuer, asset, accepted) == issuer,
    decreases accepted.len(),
{
    if accepted.len() > 0 {
        let r = accepted.drop_last();
        assert forall|i: int| 0 <= i < r.len() implies !names_issuer(#[trigger] r[i], asset) by {
            assert(!names_issuer(accepted[i], asset));
        }
        law_native_asset_stays_without_issuer(issuer, asset, r);
        assert(!names_issuer(accepted[accepted.len() - 1], asset));
    }
}

/// A missing issuer is filled from the first entry that names one for the code.
pub proof fn law_missing_issuer_is_filled(
    issuer: Option<Seq<char>>,
    asset: Seq<char>,
    accepted: Seq<AcceptedAssetView>,
    k: int,
)
    requires
        migration::is_missing(issuer),
        0 <= k < accepted.len(),
        names_issuer(accepted[k], asset),
        !migration::is_missing(accepted[k].issuer),
        forall|i: int| 0 <= i < k ==> !names_issuer(#[trigger] accepted[i], asset),
    ensures
        migration::filled(issuer, asset, accepted) == accepted[k].issuer,
    decreases accepted.len(),
{
    let r = accepted.drop_last();
    if k < r.len() {
        assert forall|i: int| 0 <= i < k implies !names_issuer(#[trigger] r[i], asset) by {
            assert(!names_issuer(accepted[i], asset));
        }
        assert(r[k] == accepted[k]);
        law_missing_issuer_is_filled(issuer, asset, r, k);
    } else {
        assert forall|i: int| 0 <= i < r.len() implies !names_issuer(#[trigger] r[i], asset) by {
            assert(!names_issuer(accepted[i], asset));
        }
        law_native_asset_stays_without_issuer(issuer, asset, r);
    }
}

/// Filling issuers twice is filling them once.
pub proof fn law_issuers_are_filled_once(v: DbView, accepted: Seq<AcceptedAssetView>)
    ensures
        v.after_issuers(accepted).after_issuers(accepted) == v.after_issuers(accepted),
{
    let once = v.after_issuers(accepted);
    assert forall|i: int| 0 <= i < once.payments.len() implies (
    #[trigger] once.payments[i]).with_issuer(accepted) == once.payments[i] by {
        let p = v.payments[i];
        assert(accepted.take(accepted.len() as int) =~= accepted);
        lemma_filled_again(p.asset_issuer, p.asset, accepted, accepted.len() as int);
    }
    assert(once.after_issuers(accepted).payments =~= once.payments);
}

/// An allow-list, or a first part of it, changes no issuer that it filled.
proof fn lemma_filled_again(
    issuer: Option<Seq<char>>,
    asset: Seq<char>,
    accepted: Seq<AcceptedAssetView>,
    k: int,
)
    requires
        0 <= k <= accepted.len(),
    ensures
        ({
            let done = migration::filled(issuer, asset, accepted);
            migration::filled(done, asset, accepted.take(k)) == done
        }),
    decreases k,
{
    let done = migration::filled(issuer, asset, accepted);
    if k > 0 {
        lemma_filled_again(issuer, asset, accepted, k - 1);
        assert(accepted.take(k).drop_last() =~= accepted.take(k - 1));
        lemma_filled_later(issuer, asset, accepted, k);
        lemma_filled_later(issuer, asset, accepted, k - 1);
    }
}

/// What the rest of an allow-list does: an issuer that the first part set stays,
/// and one that it left empty is not taken away.
proof fn lemma_filled_later(
    issuer: Option<Seq<char>>,
    asset: Seq<char>,
    accepted: Seq<AcceptedAssetView>,
    k: int,
)
    requires
        0 <= k <= accepted.len(),
    ensures
        ({
            let first = migration::filled(issuer, asset, accepted.take(k));
            let done = migration::filled(issuer, asset, accepted);
            &&& !migration::is_missing(first) ==> done == first
            &&& first is Some ==> done is Some
        }),
    decreases accepted.len() - k,
{
    if k < accepted.len() {
        lemma_filled_later(issuer, asset, accepted, k + 1);
        assert(accepted.take(k + 1).drop_last() =~= accepted.take(k));
    } else {
        assert(accepted.take(k) =~= accepted);
    }
}

/// Whether the credit that a payment names, if any, is recorded.
pub open spec fn is_recorded(v: DbView, p: PaymentView) -> bool {
    match p.legacy_credit() {
        Some((hash, _)) => v.is_credited(p.id, hash),
        None => true,
    }
}

/// Recording the credits that payments name keeps every credit that was
/// recorded, and records each that a payment names.
pub proof fn law_legacy_credits_are_recorded(v: DbView, payments: Seq<PaymentView>)
    ensures
        ({
            let after = v.after_legacy_credits(payments);
            &&& after.payments == v.payments
            &&& v.processed_transactions.is_prefix_of(after.processed_transactions)
            &&& forall|i: int|
                0 <= i < payments.len() ==> is_recorded(after, #[trigger] payments[i])
        }),
    decreases payments.len(),
{
    if payments.len() > 0 {
        let r = payments.drop_last();
        let last = payments.last();
        let mid = v.after_legacy_credits(r);
        let after = v.after_legacy_credits(payments);
        law_legacy_credits_are_recorded(v, r);
        assert forall|id: Seq<char>, hash: Seq<char>| #[trigger]
            mid.is_credited(id, hash) implies after.is_credited(id, hash) by {
            let i = choose|i: int|
                0 <= i < mid.processed_transactions.len() && (
                #[trigger] mid.processed_transactions[i]).key() == (id, hash);
            assert(after.processed_transactions[i].key() == (id, hash));
        }
        assert forall|i: int| 0 <= i < payments.len() implies is_recorded(
            after,
            #[trigger] payments[i],
        ) by {
            if i < r.len() {
                assert(is_recorded(mid, r[i]));
            } else {
                match last.legacy_credit() {
                    Some((hash, stroops)) => {
                        if !mid.is_credited(last.id, hash) {
                            let n = mid.processed_transactions.len() as int;
                            assert(after.processed_transactions[n].key() == (last.id, hash));
                        }
                    },
                    None => {},
                }
            }
        }
    }
}

/// A credit that is recorded from a payment is one that the payment names.
pub proof fn law_recorded_credit_is_named(v: DbView, payments: Seq<PaymentView>, k: int)
    requires
        v.processed_transactions.len() <= k < v.after_legacy_credits(
            payments,
        ).processed_transactions.len(),
    ensures
        ({
            let t = v.after_legacy_credits(payments).processed_transactions[k];
            exists|i: int|
                0 <= i < payments.len() && (#[trigger] payments[i]).id == t.payment_id
                    && payments[i].legacy_credit() == Some((t.tx_hash, t.amount_stroops))
        }),
    decreases payments.len(),
{
    if payments.len() > 0 {
        let r = payments.drop_last();
        let mid = v.after_legacy_credits(r);
        if k < mid.processed_transactions.len() {
            law_recorded_credit_is_named(v, r, k);
            let t = mid.processed_transactions[k];
            let i = choose|i: int|
                0 <= i < r.len() && (#[trigger] r[i]).id == t.payment_id && r[i].legacy_credit()
                    == Some((t.tx_hash, t.amount_stroops));
            assert(payments[i] == r[i]);
        } else {
            assert(payments[payments.len() - 1] == payments.last());
        }
    }
}

/// Recording the credits that payments name twice is recording them once.
pub proof fn law_legacy_credits_are_recorded_once(v: DbView, payments: Seq<PaymentView>)
    ensures
        v.after_legacy_credits(payments).after_legacy_credits(payments)
            == v.after_legacy_credits(payments),
{
    law_legacy_credits_are_recorded(v, payments);
    lemma_nothing_left_to_record(v.after_legacy_credits(payments), payments);
}

/// Where every credit that payments name is recorded, nothing is added.
proof fn lemma_nothing_left_to_record(v: DbView, payments: Seq<PaymentView>)
    requires
        forall|i: int| 0 <= i < payments.len() ==> is_recorded(v, #[trigger] payments[i]),
    ensures
        v.after_legacy_credits(payments) == v,
    decreases payments.len(),
{
    if payments.len() > 0 {
        let r = payments.drop_last();
        assert forall|i: int| 0 <= i < r.len() implies is_recorded(v, #[trigger] r[i]) by {
            assert(payments[i] == r[i]);
        }
        lemma_nothing_left_to_record(v, r);
        assert(payments[payments.len() - 1] == payments.last());
    }
}

/// Putting timestamps in normal form twice is doing it once: after an upgrade
/// every row is handed out as it is stored.
pub proof fn law_normal_rows_stay(v: DbView)
    ensures
        v.normalized().normalized() == v.normalized(),
        v.migrated().normalized() == v.migrated(),
{
    let n = v.normalized();
    assert forall|ts: Seq<char>| #[trigger]
        timestamp::normalized(timestamp::normalized(ts)) == timestamp::normalized(ts) by {
        timestamp::lemma_normalize_idempotent(ts);
    }
    assert forall|ts: Option<Seq<char>>| #[trigger]
        rows::opt_normalized(rows::opt_normalized(ts)) == rows::opt_normalized(ts) by {
        match ts {
            Some(t) => {
                timestamp::lemma_normalize_idempotent(t);
            },
            None => {},
        }
    }
    assert forall|r: PaymentView| #[trigger]
        r.normalized().normalized() == r.normalized() by {}
    assert forall|r: IdempotencyKeyView| #[trigger]
        r.normalized().normalized() == r.normalized() by {}
    assert forall|r: KvEntryView| #[trigger] r.normalized().normalized() == r.normalized() by {}
    assert forall|r: MerchantView| #[trigger] r.normalized().normalized() == r.normalized() by {}
    assert forall|r: ApiKeyView| #[trigger] r.normalized().normalized() == r.normalized() by {}
    assert forall|r: WebhookDeliveryView| #[trigger]
        r.normalized().normalized() == r.normalized() by {}
    assert(n.normalized() =~= n);
    lemma_credits_touch_one_table(n, n.payments);
    assert(v.migrated().normalized() =~= v.migrated());
}

/// Recording credits changes no other table.
pub proof fn lemma_credits_touch_one_table(v: DbView, payments: Seq<PaymentView>)
    ensures
        v.after_legacy_credits(payments) == (DbView {
            processed_transactions: v.after_legacy_credits(payments).processed_transactions,
            ..v
        }),
    decreases payments.len(),
{
    if payments.len() > 0 {
        lemma_credits_touch_one_table(v, payments.drop_last());
    }
}

/// An upgrade is safe to run at every start: running it again changes nothing.
pub proof fn law_migration_runs_once(v: DbView)
    ensures
        v.migrated().migrated() == v.migrated(),
{
    law_normal_rows_stay(v);
    let n = v.normalized();
    lemma_credits_touch_one_table(n, n.payments);
    law_legacy_credits_are_recorded_once(n, n.payments);
}

/// An upgrade repairs legacy timestamps: a payment whose expiry was stored
/// without an offset, with a blank or a `T` between date and time, expires at
/// the second that it named.
pub proof fn law_migration_repairs_expiry(v: DbView, i: int, expires: int, separator: char)
    requires
        0 <= i < v.payments.len(),
        timestamp::in_range(expires),
        separator == ' ' || separator == 'T',
        v.payments[i].expires_at == timestamp::civil_at(expires).date_text() + seq![separator]
            + timestamp::civil_at(expires).time_text(),
    ensures
        v.migrated().payments[i].expires_at == timestamp::timestamp_text(expires),
{
    let n = v.normalized();
    lemma_credits_touch_one_table(n, n.payments);
    timestamp::lemma_legacy_is_repaired(expires, separator);
}

/// A legacy table gets the column that it lacks, and only that.
pub proof fn law_missing_columns_are_added(payments: Seq<String>, deliveries: Seq<String>)
    ensures
        ({
            let has_issuer = exists|i: int|
                0 <= i < payments.len() && (#[trigger] payments[i])@ == "asset_issuer"@;
            let has_acknowledged = exists|i: int|
                0 <= i < deliveries.len() && (#[trigger] deliveries[i])@ == "acknowledged_at"@;
            let issuer = "ALTER TABLE payments ADD COLUMN asset_issuer TEXT"@;
            let acknowledged = "ALTER TABLE webhook_deliveries ADD COLUMN acknowledged_at TEXT"@;
            let statements = migration::schema_statements(payments, deliveries);
            &&& has_issuer && has_acknowledged ==> statements.len() == 0
            &&& !has_issuer && has_acknowledged ==> statements == seq![issuer]
            &&& has_issuer && !has_acknowledged ==> statements == seq![acknowledged]
            &&& !has_issuer && !has_acknowledged ==> statements == seq![issuer, acknowledged]
        }),
{
    let statements = migration::schema_statements(payments, deliveries);
    let issuer = "ALTER TABLE payments ADD COLUMN asset_issuer TEXT"@;
    let acknowledged = "ALTER TABLE webhook_deliveries ADD COLUMN acknowledged_at TEXT"@;
    if migration::has_column(payments, "asset_issuer"@) {
        if !migration::has_column(deliveries, "acknowledged_at"@) {
            assert(statements =~= seq![acknowledged]);
        }
    } else if migration::has_column(deliveries, "acknowledged_at"@) {
        assert(statements =~= seq![issuer]);
    } else {
        assert(statements =~= seq![issuer, acknowledged]);
    }
}

/// Filling issuers changes no other field of a payment and no other table. An issuer
/// that is there stays; one that is not, or is empty, comes from the first entry of
/// the allow-list that has one and spells the code alike up to the case of letters,
/// and is not filled where there is no such entry.
pub proof fn law_issuers_are_filled(v: DbView, accepted: Seq<AcceptedAssetView>, i: int, k: int)
    requires
        0 <= i < v.payments.len(),
    ensures
        ({
            let after = v.after_issuers(accepted);
            let p = v.payments[i];
            let q = after.payments[i];
            let missing = p.asset_issuer is None || p.asset_issuer == Some(""@);
            &&& after.payments.len() == v.payments.len()
            &&& after == (DbView { payments: after.payments, ..v })
            &&& q == (PaymentView { asset_issuer: q.asset_issuer, ..p })
            &&& !missing ==> q.asset_issuer == p.asset_issuer
            &&& (forall|j: int|
                0 <= j < accepted.len() ==> (#[trigger] accepted[j]).issuer is None
                    || !text::same_ignoring_case(p.asset, accepted[j].code)) ==> q.asset_issuer
                == p.asset_issuer
            &&& missing && 0 <= k < accepted.len() && accepted[k].issuer is Some
                && accepted[k].issuer != Some(""@) && text::same_ignoring_case(
                p.asset,
                accepted[k].code,
            ) && (forall|j: int|
                0 <= j < k ==> (#[trigger] accepted[j]).issuer is None || !text::same_ignoring_case(
                    p.asset,
                    accepted[j].code,
                )) ==> q.asset_issuer == accepted[k].issuer
        }),
{
    let p = v.payments[i];
    if !migration::is_missing(p.asset_issuer) {
        law_set_issuer_is_untouched(p.asset_issuer, p.asset, accepted);
    }
    if forall|j: int|
        0 <= j < accepted.len() ==> (#[trigger] accepted[j]).issuer is None
            || !text::same_ignoring_case(p.asset, accepted[j].code) {
        assert forall|j: int| 0 <= j < accepted.len() implies !names_issuer(
            #[trigger] accepted[j],
            p.asset,
        ) by {}
        law_native_asset_stays_without_issuer(p.asset_issuer, p.asset, accepted);
    }
    if migration::is_missing(p.asset_issuer) && 0 <= k < accepted.len() && names_issuer(
        accepted[k],
        p.asset,
    ) && !migration::is_missing(accepted[k].issuer) && (forall|j: int|
        0 <= j < k ==> (#[trigger] accepted[j]).issuer is None || !text::same_ignoring_case(
            p.asset,
            accepted[j].code,
        )) {
        assert forall|j: int| 0 <= j < k implies !names_issuer(#[trigger] accepted[j], p.asset) by {}
        law_missing_issuer_is_filled(p.asset_issuer, p.asset, accepted, k);
    }
}

/// The credit that a payment names: its transaction, where it has one that is not
/// empty, with the stroops of its paid amount, where it has one that can be read.
pub proof fn law_payment_names_its_credit(p: PaymentView, hash: Seq<char>, amount: Seq<char>)
    ensures
        p.tx_hash is None ==> p.legacy_credit() is None,
        p.paid_amount is None ==> p.legacy_credit() is None,
        p.tx_hash == Some(""@) ==> p.legacy_credit() is None,
        p.tx_hash == Some(hash) && p.paid_amount == Some(amount) && hash != ""@ ==> (match (
            p.legacy_credit(),
            money::stroops_of(amount),
        ) {
            (Some(credit), Some(stroops)) => credit == (hash, stroops),
            (None, None) => true,
            _ => false,
        }),
{
    reveal_strlit("");
    assert(hash.len() == 0 ==> hash =~= ""@);
}

/// An upgrade rewrites the timestamps of every table and no other field, keeps every
/// row in its place, and keeps every credit that was recorded.
pub proof fn law_migration_rewrites_timestamps_only(v: DbView, i: int)
    ensures
        ({
            let m = v.migrated();
            &&& m.payments.len() == v.payments.len()
            &&& m.idempotency_keys.len() == v.idempotency_keys.len()
            &&& m.kv_state.len() == v.kv_state.len()
            &&& m.merchants.len() == v.merchants.len()
            &&& m.api_keys.len() == v.api_keys.len()
            &&& m.webhook_deliveries.len() == v.webhook_deliveries.len()
            &&& v.processed_transactions.is_prefix_of(m.processed_transactions)
            &&& 0 <= i < v.payments.len() ==> m.payments[i] == (PaymentView {
                created_at: timestamp::normalized(v.payments[i].created_at),
                updated_at: timestamp::normalized(v.payments[i].updated_at),
                expires_at: timestamp::normalized(v.payments[i].expires_at),
                ..v.payments[i]
            })
            &&& 0 <= i < v.idempotency_keys.len() ==> m.idempotency_keys[i] == (
            IdempotencyKeyView {
                created_at: timestamp::normalized(v.idempotency_keys[i].created_at),
                ..v.idempotency_keys[i]
            })
            &&& 0 <= i < v.kv_state.len() ==> m.kv_state[i] == (KvEntryView {
                updated_at: timestamp::normalized(v.kv_state[i].updated_at),
                ..v.kv_state[i]
            })
            &&& 0 <= i < v.merchants.len() ==> m.merchants[i] == (MerchantView {
                created_at: timestamp::normalized(v.merchants[i].created_at),
                ..v.merchants[i]
            })
            &&& 0 <= i < v.api_keys.len() ==> {
                let k = v.api_keys[i];
                let h = m.api_keys[i];
                &&& h == (ApiKeyView {
                    created_at: timestamp::normalized(k.created_at),
                    last_used_at: h.last_used_at,
                    revoked_at: h.revoked_at,
                    ..k
                })
                &&& k.last_used_at is None ==> h.last_used_at is None
                &&& k.last_used_at matches Some(t) ==> h.last_used_at == Some(
                    timestamp::normalized(t),
                )
                &&& k.revoked_at is None ==> h.revoked_at is None
                &&& k.revoked_at matches Some(t) ==> h.revoked_at == Some(timestamp::normalized(t))
            }
            &&& 0 <= i < v.webhook_deliveries.len() ==> {
                let d = v.webhook_deliveries[i];
                let e = m.webhook_deliveries[i];
                &&& e == (WebhookDeliveryView {
                    created_at: timestamp::normalized(d.created_at),
                    last_attempt: e.last_attempt,
                    acknowledged_at: e.acknowledged_at,
                    ..d
                })
                &&& d.last_attempt is None ==> e.last_attempt is None
                &&& d.last_attempt matches Some(t) ==> e.last_attempt == Some(
                    timestamp::normalized(t),
                )
                &&& d.acknowledged_at is None ==> e.acknowledged_at is None
                &&& d.acknowledged_at matches Some(t) ==> e.acknowledged_at == Some(
                    timestamp::normalized(t),
                )
            }
        }),
{
    let n = v.normalized();
    lemma_credits_touch_one_table(n, n.payments);
    law_legacy_credits_are_recorded(n, n.payments);
}

/// An upgrade records the credit that a stored payment names by its transaction and
/// its paid amount.
pub proof fn law_migration_records_the_credit(
    v: DbView,
    i: int,
    hash: Seq<char>,
    amount: Seq<char>,
)
    requires
        0 <= i < v.payments.len(),
        v.payments[i].tx_hash == Some(hash),
        v.payments[i].paid_amount == Some(amount),
        hash != ""@,
        money::stroops_of(amount) is Some,
    ensures
        exists|k: int|
            0 <= k < v.migrated().processed_transactions.len() && (
            #[trigger] v.migrated().processed_transactions[k]).payment_id == v.payments[i].id
                && v.migrated().processed_transactions[k].tx_hash == hash,
{
    let n = v.normalized();
    law_legacy_credits_are_recorded(n, n.payments);
    law_payment_names_its_credit(n.payments[i], hash, amount);
    assert(is_recorded(v.migrated(), n.payments[i]));
    let m = v.migrated().processed_transactions;
    let k = choose|k: int|
        0 <= k < m.len() && (#[trigger] m[k]).key() == (v.payments[i].id, hash);
    assert(m[k].payment_id == v.payments[i].id);
}

} // verus!

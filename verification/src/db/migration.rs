//! What an upgrade does to legacy tables and rows.
use vstd::prelude::*;

use crate::db::ledger;
use crate::db::payments;
use crate::db::rows::{
    ApiKey, ApiKeyView, IdempotencyKey, IdempotencyKeyView, KvEntry, KvEntryView, Merchant,
    MerchantView, Payment, PaymentView, WebhookDelivery, WebhookDeliveryView,
};
use crate::db::{Db, DbView};
use crate::money;
use crate::table;
use crate::table::Row;
use crate::text;

verus! {

/// An asset that the gateway accepts; a native asset has no issuer.
#[derive(Debug)]
pub struct AcceptedAsset {
    pub code: String,
    pub issuer: Option<String>,
}

/// The content of an [`AcceptedAsset`].
pub struct AcceptedAssetView {
    pub code: Seq<char>,
    pub issuer: Option<Seq<char>>,
}

impl View for AcceptedAsset {
    type V = AcceptedAssetView;

    open spec fn view(&self) -> AcceptedAssetView {
        AcceptedAssetView { code: self.code@, issuer: text::opt_view(self.issuer) }
    }
}

/// Whether an issuer is missing.
pub open spec fn is_missing(issuer: Option<Seq<char>>) -> bool {
    issuer is None || issuer == Some(""@)
}

/// The issuer of a payment in `asset` after the allow-list was applied, from its
/// first entry on: only a missing issuer is filled, from an entry that has one
/// and shares the code, whatever the case of its letters.
pub open spec fn filled(
    issuer: Option<Seq<char>>,
    asset: Seq<char>,
    accepted: Seq<AcceptedAssetView>,
) -> Option<Seq<char>>
    decreases accepted.len(),
{
    if accepted.len() == 0 {
        issuer
    } else {
        let earlier = filled(issuer, asset, accepted.drop_last());
        if is_missing(earlier) && accepted.last().issuer is Some && text::same_ignoring_case(
            asset,
            accepted.last().code,
        ) {
            accepted.last().issuer
        } else {
            earlier
        }
    }
}

impl PaymentView {
    /// The payment with its issuer filled from the allow-list.
    pub open spec fn with_issuer(self, accepted: Seq<AcceptedAssetView>) -> PaymentView {
        PaymentView { asset_issuer: filled(self.asset_issuer, self.asset, accepted), ..self }
    }

    /// The transaction and the stroops that a payment itself names as its credit.
    pub open spec fn legacy_credit(self) -> Option<(Seq<char>, int)> {
        match (self.tx_hash, self.paid_amount) {
            (Some(hash), Some(amount)) => match money::stroops_of(amount) {
                Some(stroops) if hash.len() > 0 => Some((hash, stroops)),
                _ => None,
            },
            _ => None,
        }
    }
}

impl DbView {
    /// The store after the issuers of its payments were filled.
    pub open spec fn after_issuers(self, accepted: Seq<AcceptedAssetView>) -> DbView {
        DbView {
            payments: self.payments.map_values(|p: PaymentView| p.with_issuer(accepted)),
            ..self
        }
    }

    /// The store after the credit that a payment itself names was recorded.
    pub open spec fn after_legacy_credit(self, p: PaymentView) -> DbView {
        match p.legacy_credit() {
            Some((hash, stroops)) => self.after_credit(p.id, hash, stroops),
            None => self,
        }
    }

    /// The store after the credits that payments themselves name were recorded.
    pub open spec fn after_legacy_credits(self, payments: Seq<PaymentView>) -> DbView
        decreases payments.len(),
    {
        if payments.len() == 0 {
            self
        } else {
            self.after_legacy_credits(payments.drop_last()).after_legacy_credit(payments.last())
        }
    }

    /// The store with every timestamp in normal form.
    pub open spec fn normalized(self) -> DbView {
        DbView {
            payments: self.payments.map_values(|r: PaymentView| r.normalized()),
            idempotency_keys: self.idempotency_keys.map_values(
                |r: IdempotencyKeyView| r.normalized(),
            ),
            processed_transactions: self.processed_transactions,
            kv_state: self.kv_state.map_values(|r: KvEntryView| r.normalized()),
            merchants: self.merchants.map_values(|r: MerchantView| r.normalized()),
            api_keys: self.api_keys.map_values(|r: ApiKeyView| r.normalized()),
            webhook_deliveries: self.webhook_deliveries.map_values(
                |r: WebhookDeliveryView| r.normalized(),
            ),
        }
    }

    /// The store after an upgrade.
    pub open spec fn migrated(self) -> DbView {
        self.normalized().after_legacy_credits(self.normalized().payments)
    }
}

/// Whether columns hold a name.
pub open spec fn has_column(columns: Seq<String>, name: Seq<char>) -> bool {
    exists|i: int| 0 <= i < columns.len() && (#[trigger] columns[i])@ == name
}

/// The statements that bring legacy tables up to date, by the columns that they
/// have.
pub open spec fn schema_statements(payments: Seq<String>, deliveries: Seq<String>) -> Seq<
    Seq<char>,
> {
    (if has_column(payments, "asset_issuer"@) {
        Seq::empty()
    } else {
        seq!["ALTER TABLE payments ADD COLUMN asset_issuer TEXT"@]
    }) + (if has_column(deliveries, "acknowledged_at"@) {
        Seq::empty()
    } else {
        seq!["ALTER TABLE webhook_deliveries ADD COLUMN acknowledged_at TEXT"@]
    })
}

/// Whether columns hold a name.
fn contains_column(columns: &[String], name: &str) -> (r: bool)
    ensures
        r == has_column(columns@, name@),
{
    let mut i: usize = 0;
    while i < columns.len()
        invariant
            i <= columns.len(),
            forall|j: int| 0 <= j < i ==> (#[trigger] columns@[j])@ != name@,
        decreases columns.len() - i,
    {
        if text::str_eq(columns[i].as_str(), name) {
            assert(columns@[i as int]@ == name@);
            return true;
        }
        i += 1;
    }
    false
}

/// The statements that add the columns which legacy tables lack, given the
/// columns of `payments` and of `webhook_deliveries`.
pub fn schema_changes(payments: &[String], deliveries: &[String]) -> (r: Vec<String>)
    ensures
        table::views(r@) == schema_statements(payments@, deliveries@),
{
    let mut statements: Vec<String> = Vec::new();
    if !contains_column(payments, "asset_issuer") {
        statements.push("ALTER TABLE payments ADD COLUMN asset_issuer TEXT".to_owned());
    }
    if !contains_column(deliveries, "acknowledged_at") {
        statements.push(
            "ALTER TABLE webhook_deliveries ADD COLUMN acknowledged_at TEXT".to_owned(),
        );
    }
    assert(table::views(statements@) =~= schema_statements(payments@, deliveries@));
    statements
}

/// The issuer of a payment after the allow-list was applied.
fn fill_issuer(issuer: &Option<String>, asset: &str, accepted: &[AcceptedAsset]) -> (r: Option<
    String,
>)
    ensures
        text::opt_view(r) == filled(text::opt_view(*issuer), asset@, table::views(accepted@)),
{
    let ghost all = table::views(accepted@);
    let mut current = text::clone_opt(issuer);
    let mut i: usize = 0;
    assert(all.take(0).len() == 0);
    while i < accepted.len()
        invariant
            all == table::views(accepted@),
            i <= accepted.len(),
            text::opt_view(current) == filled(
                text::opt_view(*issuer),
                asset@,
                all.take(i as int),
            ),
        decreases accepted.len() - i,
    {
        proof {
            assert(all.take(i + 1).drop_last() =~= all.take(i as int));
            assert(all.take(i + 1).last() == accepted@[i as int]@);
        }
        let missing = match &current {
            Some(s) => text::str_eq(s.as_str(), ""),
            None => true,
        };
        if missing && accepted[i].issuer.is_some() && text::str_same_ignoring_case(
            asset,
            accepted[i].code.as_str(),
        ) {
            current = text::clone_opt(&accepted[i].issuer);
        }
        i += 1;
    }
    assert(all.take(i as int) =~= all);
    current
}

/// Fills the issuer of payments that only stored a code, from the allow-list.
/// Native assets stay without one.
pub fn backfill_asset_issuers(pool: &mut Db, accepted: &[AcceptedAsset])
    ensures
        final(pool)@ == old(pool)@.after_issuers(table::views(accepted@)),
        old(pool)@.inv() ==> final(pool)@.inv(),
{
    let ghost list = table::views(accepted@);
    let ghost before = pool@.payments;
    let mut out: Vec<Payment> = Vec::new();
    let mut i: usize = 0;
    while i < pool.payments.len()
        invariant
            list == table::views(accepted@),
            before == table::views(pool.payments@),
            i <= pool.payments.len(),
            out.len() == i,
            forall|j: int| 0 <= j < i ==> (#[trigger] out@[j])@ == before[j].with_issuer(list),
        decreases pool.payments.len() - i,
    {
        let mut p = pool.payments[i].copy();
        assert(p@ == before[i as int]);
        p.asset_issuer = fill_issuer(&p.asset_issuer, p.asset.as_str(), accepted);
        out.push(p);
        i += 1;
    }
    pool.payments = out;
    proof {
        assert(pool@.payments =~= old(pool)@.after_issuers(list).payments);
        payments::lemma_same_ids_keep_inv(old(pool)@, pool@);
    }
}

/// Records the credits that payments themselves name, in their transaction and
/// paid amount; one that was recorded before is not recorded again.
pub fn backfill_processed_transactions(pool: &mut Db)
    ensures
        final(pool)@ == old(pool)@.after_legacy_credits(old(pool)@.payments),
        old(pool)@.inv() ==> final(pool)@.inv(),
{
    let ghost before = pool@;
    let ghost legacy = pool@.payments;
    let mut i: usize = 0;
    assert(legacy.take(0).len() == 0);
    while i < pool.payments.len()
        invariant
            legacy == table::views(pool.payments@),
            i <= pool.payments.len(),
            pool@ == before.after_legacy_credits(legacy.take(i as int)),
            before.inv() ==> pool@.inv(),
        decreases pool.payments.len() - i,
    {
        let p = pool.payments[i].copy();
        proof {
            assert(p@ == legacy[i as int]);
            assert(legacy.take(i + 1).drop_last() =~= legacy.take(i as int));
            assert(legacy.take(i + 1).last() == p@);
        }
        let ghost payments = pool@.payments;
        match (&p.tx_hash, &p.paid_amount) {
            (Some(hash), Some(amount)) => {
                proof {
                    reveal_strlit("");
                    assert(hash@.len() == 0 ==> hash@ =~= ""@);
                }
                if !text::str_eq(hash.as_str(), "") {
                    match money::parse_stroops(amount.as_str()) {
                        Some(stroops) => {
                            ledger::credit(pool, p.id.as_str(), hash.as_str(), stroops);
                        },
                        None => {},
                    }
                }
            },
            _ => {},
        }
        assert(pool@.payments == payments);
        i += 1;
    }
    assert(legacy.take(i as int) =~= legacy);
}

/// Brings legacy rows up to date: puts every timestamp in normal form and records
/// the credits that payments themselves name.
pub fn migrate(pool: &mut Db)
    ensures
        final(pool)@ == old(pool)@.migrated(),
        old(pool)@.inv() ==> final(pool)@.inv(),
{
    proof {
        assert(table::form::<Payment>() =~= (|r: PaymentView| r.normalized()));
        assert(table::form::<IdempotencyKey>() =~= (|r: IdempotencyKeyView| r.normalized()));
        assert(table::form::<KvEntry>() =~= (|r: KvEntryView| r.normalized()));
        assert(table::form::<Merchant>() =~= (|r: MerchantView| r.normalized()));
        assert(table::form::<ApiKey>() =~= (|r: ApiKeyView| r.normalized()));
        assert(table::form::<WebhookDelivery>() =~= (|r: WebhookDeliveryView| r.normalized()));
        lemma_normalized_keeps_inv(pool@);
    }
    pool.payments = table::hand_out_all(&pool.payments);
    pool.idempotency_keys = table::hand_out_all(&pool.idempotency_keys);
    pool.kv_state = table::hand_out_all(&pool.kv_state);
    pool.merchants = table::hand_out_all(&pool.merchants);
    pool.api_keys = table::hand_out_all(&pool.api_keys);
    pool.webhook_deliveries = table::hand_out_all(&pool.webhook_deliveries);
    assert(pool@ =~= old(pool)@.normalized());
    backfill_processed_transactions(pool);
}

/// Putting timestamps in normal form keeps the primary keys.
proof fn lemma_normalized_keeps_inv(v: DbView)
    ensures
        v.inv() ==> v.normalized().inv(),
{
    if v.inv() {
        let n = v.normalized();
        assert forall|i: int, j: int| 0 <= i < j < n.payments.len() implies (
        #[trigger] n.payments[i]).id != (#[trigger] n.payments[j]).id by {
            assert(v.payments[i].id != v.payments[j].id);
        }
        assert forall|i: int, j: int| 0 <= i < j < n.idempotency_keys.len() implies (
        #[trigger] n.idempotency_keys[i]).key() != (#[trigger] n.idempotency_keys[j]).key() by {
            assert(v.idempotency_keys[i].key() != v.idempotency_keys[j].key());
        }
        assert forall|i: int, j: int| 0 <= i < j < n.kv_state.len() implies (
        #[trigger] n.kv_state[i]).key != (#[trigger] n.kv_state[j]).key by {
            assert(v.kv_state[i].key != v.kv_state[j].key);
        }
        assert forall|i: int, j: int| 0 <= i < j < n.merchants.len() implies (
        #[trigger] n.merchants[i]).id != (#[trigger] n.merchants[j]).id by {
            assert(v.merchants[i].id != v.merchants[j].id);
        }
        assert forall|i: int, j: int| 0 <= i < j < n.api_keys.len() implies (
        #[trigger] n.api_keys[i]).id != (#[trigger] n.api_keys[j]).id by {
            assert(v.api_keys[i].id != v.api_keys[j].id);
        }
        assert forall|i: int, j: int| 0 <= i < j < n.webhook_deliveries.len() implies (
        #[trigger] n.webhook_deliveries[i]).id != (#[trigger] n.webhook_deliveries[j]).id by {
            assert(v.webhook_deliveries[i].id != v.webhook_deliveries[j].id);
        }
    }
}

} // verus!

//! The store: its tables, what every operation does to them, and the laws that
//! the operations keep.
//!
//! An operation is given the rows that it works on and the moment at which it
//! happens. It is a function of these alone: what holds the rows between
//! operations, and makes each operation atomic, stands outside.
use vstd::prelude::*;

use crate::table;

pub mod accounts;
pub mod deliveries;
pub mod delivery_laws;
pub mod delivery_row_laws;
pub mod idempotency;
pub mod kv;
pub mod ledger;
pub mod migration;
pub mod migration_laws;
pub mod payment_laws;
pub mod payment_row_laws;
pub mod payments;
pub mod record_laws;
pub mod rows;
pub mod stamp_laws;

pub use accounts::{
    count_active_keys_for_merchant, create_api_key, create_merchant, find_api_key_by_hash,
    find_merchant_by_key_hash, get_api_key, get_merchant, list_api_keys_for_merchant,
    revoke_api_key, touch_api_key,
};
pub use deliveries::{
    acknowledge_deliveries, create_webhook_delivery, find_eligible_for_redrive,
    get_webhook_delivery, list_webhook_deliveries_for_payment, prune_webhook_deliveries,
    update_webhook_delivery_status,
};
pub use idempotency::{
    find_payment_id_by_idempotency_key, prune_idempotency_keys, save_idempotency_key,
};
pub use kv::{get_kv, set_kv};
pub use ledger::record_processed_transaction;
pub use migration::{backfill_asset_issuers, migrate, schema_changes, AcceptedAsset};
pub use payments::{
    count_payments, create_payment, expire_overdue, find_pending_by_memo, get_payment,
    list_payments, list_payments_keyset, list_pending, update_payment_status,
};
pub use rows::{
    row_to_payment, ApiKey, IdempotencyKey, KvEntry, Merchant, NewPayment, Payment,
    ProcessedTransaction, WebhookDelivery,
};

verus! {

/// The tables.
pub struct Db {
    pub payments: Vec<Payment>,
    pub idempotency_keys: Vec<IdempotencyKey>,
    pub processed_transactions: Vec<ProcessedTransaction>,
    pub kv_state: Vec<KvEntry>,
    pub merchants: Vec<Merchant>,
    pub api_keys: Vec<ApiKey>,
    pub webhook_deliveries: Vec<WebhookDelivery>,
}

/// The contents of the tables, each in the order in which rows were inserted.
#[verifier::ext_equal]
pub struct DbView {
    pub payments: Seq<rows::PaymentView>,
    pub idempotency_keys: Seq<rows::IdempotencyKeyView>,
    pub processed_transactions: Seq<rows::ProcessedTransactionView>,
    pub kv_state: Seq<rows::KvEntryView>,
    pub merchants: Seq<rows::MerchantView>,
    pub api_keys: Seq<rows::ApiKeyView>,
    pub webhook_deliveries: Seq<rows::WebhookDeliveryView>,
}

impl View for Db {
    type V = DbView;

    open spec fn view(&self) -> DbView {
        DbView {
            payments: table::views(self.payments@),
            idempotency_keys: table::views(self.idempotency_keys@),
            processed_transactions: table::views(self.processed_transactions@),
            kv_state: table::views(self.kv_state@),
            merchants: table::views(self.merchants@),
            api_keys: table::views(self.api_keys@),
            webhook_deliveries: table::views(self.webhook_deliveries@),
        }
    }
}

impl DbView {
    /// Every table has its primary key.
    pub open spec fn inv(self) -> bool {
        &&& forall|i: int, j: int|
            0 <= i < j < self.payments.len() ==> (#[trigger] self.payments[i]).id != (
            #[trigger] self.payments[j]).id
        &&& forall|i: int, j: int|
            0 <= i < j < self.idempotency_keys.len() ==> (#[trigger] self.idempotency_keys[i]).key()
                != (#[trigger] self.idempotency_keys[j]).key()
        &&& forall|i: int, j: int|
            0 <= i < j < self.processed_transactions.len() ==> (
            #[trigger] self.processed_transactions[i]).key() != (
            #[trigger] self.processed_transactions[j]).key()
        &&& forall|i: int, j: int|
            0 <= i < j < self.kv_state.len() ==> (#[trigger] self.kv_state[i]).key != (
            #[trigger] self.kv_state[j]).key
        &&& forall|i: int, j: int|
            0 <= i < j < self.merchants.len() ==> (#[trigger] self.merchants[i]).id != (
            #[trigger] self.merchants[j]).id
        &&& forall|i: int, j: int|
            0 <= i < j < self.api_keys.len() ==> (#[trigger] self.api_keys[i]).id != (
            #[trigger] self.api_keys[j]).id
        &&& forall|i: int, j: int|
            0 <= i < j < self.webhook_deliveries.len() ==> (
            #[trigger] self.webhook_deliveries[i]).id != (
            #[trigger] self.webhook_deliveries[j]).id
    }
}

impl rows::IdempotencyKeyView {
    /// The primary key: an idempotency key is scoped to its merchant.
    pub open spec fn key(self) -> (Seq<char>, Seq<char>) {
        (self.merchant_id, self.idempotency_key)
    }
}

impl rows::ProcessedTransactionView {
    /// The primary key: a transaction is credited to a payment once.
    pub open spec fn key(self) -> (Seq<char>, Seq<char>) {
        (self.payment_id, self.tx_hash)
    }
}

/// Why an operation was refused.
#[derive(Debug, PartialEq, Eq, Structural, Clone, Copy)]
pub enum DbError {
    /// The amount is not a positive decimal with at most seven decimal places.
    InvalidAmount,
    /// The expiry lies beyond the years that a timestamp can name.
    ExpiryOutOfRange,
    /// A row with this key exists.
    DuplicateKey,
    /// A sum or a counter does not fit in 64 bits.
    IntegerOverflow,
}

impl DbError {
    /// A human-readable explanation.
    pub fn message(&self) -> (r: &'static str)
        ensures
            r@ == match *self {
                DbError::InvalidAmount => "Invalid amount"@,
                DbError::ExpiryOutOfRange => "Expiry out of range"@,
                DbError::DuplicateKey => "Duplicate key"@,
                DbError::IntegerOverflow => "Integer overflow"@,
            },
    {
        match self {
            DbError::InvalidAmount => "Invalid amount",
            DbError::ExpiryOutOfRange => "Expiry out of range",
            DbError::DuplicateKey => "Duplicate key",
            DbError::IntegerOverflow => "Integer overflow",
        }
    }
}

impl Db {
    /// A store without rows.
    pub fn new() -> (r: Self)
        ensures
            r@ == (DbView {
                payments: Seq::empty(),
                idempotency_keys: Seq::empty(),
                processed_transactions: Seq::empty(),
                kv_state: Seq::empty(),
                merchants: Seq::empty(),
                api_keys: Seq::empty(),
                webhook_deliveries: Seq::empty(),
            }),
            r@.inv(),
    {
        let r = Db {
            payments: Vec::new(),
            idempotency_keys: Vec::new(),
            processed_transactions: Vec::new(),
            kv_state: Vec::new(),
            merchants: Vec::new(),
            api_keys: Vec::new(),
            webhook_deliveries: Vec::new(),
        };
        assert(r@ =~= (DbView {
            payments: Seq::empty(),
            idempotency_keys: Seq::empty(),
            processed_transactions: Seq::empty(),
            kv_state: Seq::empty(),
            merchants: Seq::empty(),
            api_keys: Seq::empty(),
            webhook_deliveries: Seq::empty(),
        }));
        r
    }
}

} // verus!

//! The rows of the store, and how they are handed out.
use vstd::prelude::*;

use crate::table::{Row, Stored};
use crate::text;
use crate::timestamp;

verus! {

/// The normal form of an optional timestamp.
pub open spec fn opt_normalized(ts: Option<Seq<char>>) -> Option<Seq<char>> {
    match ts {
        Some(t) => Some(timestamp::normalized(t)),
        None => None,
    }
}

/// Normalizes an optional timestamp.
fn normalize_opt_ts(ts: &Option<String>) -> (r: Option<String>)
    ensures
        text::opt_view(r) == opt_normalized(text::opt_view(*ts)),
{
    match ts {
        Some(t) => Some(timestamp::normalize_ts(t.as_str())),
        None => None,
    }
}

/// A payment intent.
#[derive(Debug)]
pub struct Payment {
    pub id: String,
    pub merchant_id: String,
    pub destination_address: String,
    pub memo: String,
    pub amount: String,
    pub asset: String,
    pub status: String,
    pub webhook_url: Option<String>,
    pub tx_hash: Option<String>,
    pub paid_amount: Option<String>,
    pub created_at: String,
    pub updated_at: String,
    /// When this intent stops being `pending` and is swept to `expired`.
    pub expires_at: String,
    /// Issuer account for a credit asset; `None` for native XLM. Settlement
    /// matches this issuer, not any allow-list entry that shares the code.
    pub asset_issuer: Option<String>,
}

/// The content of a [`Payment`].
#[verifier::ext_equal]
pub struct PaymentView {
    pub id: Seq<char>,
    pub merchant_id: Seq<char>,
    pub destination_address: Seq<char>,
    pub memo: Seq<char>,
    pub amount: Seq<char>,
    pub asset: Seq<char>,
    pub status: Seq<char>,
    pub webhook_url: Option<Seq<char>>,
    pub tx_hash: Option<Seq<char>>,
    pub paid_amount: Option<Seq<char>>,
    pub created_at: Seq<char>,
    pub updated_at: Seq<char>,
    pub expires_at: Seq<char>,
    pub asset_issuer: Option<Seq<char>>,
}

impl View for Payment {
    type V = PaymentView;

    open spec fn view(&self) -> PaymentView {
        PaymentView {
            id: self.id@,
            merchant_id: self.merchant_id@,
            destination_address: self.destination_address@,
            memo: self.memo@,
            amount: self.amount@,
            asset: self.asset@,
            status: self.status@,
            webhook_url: text::opt_view(self.webhook_url),
            tx_hash: text::opt_view(self.tx_hash),
            paid_amount: text::opt_view(self.paid_amount),
            created_at: self.created_at@,
            updated_at: self.updated_at@,
            expires_at: self.expires_at@,
            asset_issuer: text::opt_view(self.asset_issuer),
        }
    }
}

impl Row for Payment {
    fn copy(&self) -> (r: Self) {
        Payment {
            id: self.id.clone(),
            merchant_id: self.merchant_id.clone(),
            destination_address: self.destination_address.clone(),
            memo: self.memo.clone(),
            amount: self.amount.clone(),
            asset: self.asset.clone(),
            status: self.status.clone(),
            webhook_url: text::clone_opt(&self.webhook_url),
            tx_hash: text::clone_opt(&self.tx_hash),
            paid_amount: text::clone_opt(&self.paid_amount),
            created_at: self.created_at.clone(),
            updated_at: self.updated_at.clone(),
            expires_at: self.expires_at.clone(),
            asset_issuer: text::clone_opt(&self.asset_issuer),
        }
    }
}

impl Clone for Payment {
    fn clone(&self) -> (r: Self)
        ensures
            r@ == self@,
    {
        self.copy()
    }
}

impl PaymentView {
    /// The row with its timestamps in normal form.
    pub open spec fn normalized(self) -> PaymentView {
        PaymentView {
            created_at: timestamp::normalized(self.created_at),
            updated_at: timestamp::normalized(self.updated_at),
            expires_at: timestamp::normalized(self.expires_at),
            ..self
        }
    }
}

impl Stored for Payment {
    open spec fn handed_out(row: PaymentView) -> PaymentView {
        row.normalized()
    }

    fn hand_out(&self) -> (r: Self) {
        row_to_payment(self)
    }
}

/// The payment of a stored row: its timestamps in normal form.
pub fn row_to_payment(row: &Payment) -> (r: Payment)
    ensures
        r@ == row@.normalized(),
{
    Payment {
        id: row.id.clone(),
        merchant_id: row.merchant_id.clone(),
        destination_address: row.destination_address.clone(),
        memo: row.memo.clone(),
        amount: row.amount.clone(),
        asset: row.asset.clone(),
        status: row.status.clone(),
        webhook_url: text::clone_opt(&row.webhook_url),
        tx_hash: text::clone_opt(&row.tx_hash),
        paid_amount: text::clone_opt(&row.paid_amount),
        created_at: timestamp::normalize_ts(row.created_at.as_str()),
        updated_at: timestamp::normalize_ts(row.updated_at.as_str()),
        expires_at: timestamp::normalize_ts(row.expires_at.as_str()),
        asset_issuer: text::clone_opt(&row.asset_issuer),
    }
}

/// Fields needed to insert a new payment intent.
pub struct NewPayment<'a> {
    pub id: &'a str,
    pub merchant_id: &'a str,
    pub destination_address: &'a str,
    pub memo: &'a str,
    pub amount: &'a str,
    pub asset: &'a str,
    /// Issuer for `asset`; `None` for native XLM.
    pub asset_issuer: Option<&'a str>,
    pub webhook_url: Option<&'a str>,
    /// Seconds from now until the intent expires.
    pub ttl_secs: i64,
}

/// A merchant.
#[derive(Debug)]
pub struct Merchant {
    pub id: String,
    pub api_key_hash: String,
    pub created_at: String,
}

/// The content of a [`Merchant`].
#[verifier::ext_equal]
pub struct MerchantView {
    pub id: Seq<char>,
    pub api_key_hash: Seq<char>,
    pub created_at: Seq<char>,
}

impl View for Merchant {
    type V = MerchantView;

    open spec fn view(&self) -> MerchantView {
        MerchantView {
            id: self.id@,
            api_key_hash: self.api_key_hash@,
            created_at: self.created_at@,
        }
    }
}

impl Row for Merchant {
    fn copy(&self) -> (r: Self) {
        Merchant {
            id: self.id.clone(),
            api_key_hash: self.api_key_hash.clone(),
            created_at: self.created_at.clone(),
        }
    }
}

impl Clone for Merchant {
    fn clone(&self) -> (r: Self)
        ensures
            r@ == self@,
    {
        self.copy()
    }
}

impl MerchantView {
    /// The row with its timestamps in normal form.
    pub open spec fn normalized(self) -> MerchantView {
        MerchantView {
            created_at: timestamp::normalized(self.created_at),
            ..self
        }
    }
}

impl Stored for Merchant {
    open spec fn handed_out(row: MerchantView) -> MerchantView {
        row.normalized()
    }

    fn hand_out(&self) -> (r: Self) {
        Merchant {
            id: self.id.clone(),
            api_key_hash: self.api_key_hash.clone(),
            created_at: timestamp::normalize_ts(self.created_at.as_str()),
        }
    }
}

/// An API key of a merchant; only its hash is stored.
#[derive(Debug)]
pub struct ApiKey {
    pub id: String,
    pub merchant_id: String,
    pub key_hash: String,
    pub prefix: String,
    pub label: Option<String>,
    pub created_at: String,
    pub last_used_at: Option<String>,
    pub revoked_at: Option<String>,
}

/// The content of a [`ApiKey`].
#[verifier::ext_equal]
pub struct ApiKeyView {
    pub id: Seq<char>,
    pub merchant_id: Seq<char>,
    pub key_hash: Seq<char>,
    pub prefix: Seq<char>,
    pub label: Option<Seq<char>>,
    pub created_at: Seq<char>,
    pub last_used_at: Option<Seq<char>>,
    pub revoked_at: Option<Seq<char>>,
}

impl View for ApiKey {
    type V = ApiKeyView;

    open spec fn view(&self) -> ApiKeyView {
        ApiKeyView {
            id: self.id@,
            merchant_id: self.merchant_id@,
            key_hash: self.key_hash@,
            prefix: self.prefix@,
            label: text::opt_view(self.label),
            created_at: self.created_at@,
            last_used_at: text::opt_view(self.last_used_at),
            revoked_at: text::opt_view(self.revoked_at),
        }
    }
}

impl Row for ApiKey {
    fn copy(&self) -> (r: Self) {
        ApiKey {
            id: self.id.clone(),
            merchant_id: self.merchant_id.clone(),
            key_hash: self.key_hash.clone(),
            prefix: self.prefix.clone(),
            label: text::clone_opt(&self.label),
            created_at: self.created_at.clone(),
            last_used_at: text::clone_opt(&self.last_used_at),
            revoked_at: text::clone_opt(&self.revoked_at),
        }
    }
}

impl Clone for ApiKey {
    fn clone(&self) -> (r: Self)
        ensures
            r@ == self@,
    {
        self.copy()
    }
}

impl ApiKeyView {
    /// The row with its timestamps in normal form.
    pub open spec fn normalized(self) -> ApiKeyView {
        ApiKeyView {
            created_at: timestamp::normalized(self.created_at),
            last_used_at: opt_normalized(self.last_used_at),
            revoked_at: opt_normalized(self.revoked_at),
            ..self
        }
    }
}

impl Stored for ApiKey {
    open spec fn handed_out(row: ApiKeyView) -> ApiKeyView {
        row.normalized()
    }

    fn hand_out(&self) -> (r: Self) {
        ApiKey {
            id: self.id.clone(),
            merchant_id: self.merchant_id.clone(),
            key_hash: self.key_hash.clone(),
            prefix: self.prefix.clone(),
            label: text::clone_opt(&self.label),
            created_at: timestamp::normalize_ts(self.created_at.as_str()),
            last_used_at: normalize_opt_ts(&self.last_used_at),
            revoked_at: normalize_opt_ts(&self.revoked_at),
        }
    }
}

/// The delivery of a webhook event.
#[derive(Debug)]
pub struct WebhookDelivery {
    pub id: String,
    pub payment_id: String,
    pub url: String,
    pub payload: String,
    pub event_type: Option<String>,
    pub status: String,
    pub attempts: i64,
    pub last_attempt: Option<String>,
    pub acknowledged_at: Option<String>,
    pub created_at: String,
}

/// The content of a [`WebhookDelivery`].
#[verifier::ext_equal]
pub struct WebhookDeliveryView {
    pub id: Seq<char>,
    pub payment_id: Seq<char>,
    pub url: Seq<char>,
    pub payload: Seq<char>,
    pub event_type: Option<Seq<char>>,
    pub status: Seq<char>,
    pub attempts: int,
    pub last_attempt: Option<Seq<char>>,
    pub acknowledged_at: Option<Seq<char>>,
    pub created_at: Seq<char>,
}

impl View for WebhookDelivery {
    type V = WebhookDeliveryView;

    open spec fn view(&self) -> WebhookDeliveryView {
        WebhookDeliveryView {
            id: self.id@,
            payment_id: self.payment_id@,
            url: self.url@,
            payload: self.payload@,
            event_type: text::opt_view(self.event_type),
            status: self.status@,
            attempts: self.attempts as int,
            last_attempt: text::opt_view(self.last_attempt),
            acknowledged_at: text::opt_view(self.acknowledged_at),
            created_at: self.created_at@,
        }
    }
}

impl Row for WebhookDelivery {
    fn copy(&self) -> (r: Self) {
        WebhookDelivery {
            id: self.id.clone(),
            payment_id: self.payment_id.clone(),
            url: self.url.clone(),
            payload: self.payload.clone(),
            event_type: text::clone_opt(&self.event_type),
            status: self.status.clone(),
            attempts: self.attempts,
            last_attempt: text::clone_opt(&self.last_attempt),
            acknowledged_at: text::clone_opt(&self.acknowledged_at),
            created_at: self.created_at.clone(),
        }
    }
}

impl Clone for WebhookDelivery {
    fn clone(&self) -> (r: Self)
        ensures
            r@ == self@,
    {
        self.copy()
    }
}

impl WebhookDeliveryView {
    /// The row with its timestamps in normal form.
    pub open spec fn normalized(self) -> WebhookDeliveryView {
        WebhookDeliveryView {
            last_attempt: opt_normalized(self.last_attempt),
            acknowledged_at: opt_normalized(self.acknowledged_at),
            created_at: timestamp::normalized(self.created_at),
            ..self
        }
    }
}

impl Stored for WebhookDelivery {
    open spec fn handed_out(row: WebhookDeliveryView) -> WebhookDeliveryView {
        row.normalized()
    }

    fn hand_out(&self) -> (r: Self) {
        WebhookDelivery {
            id: self.id.clone(),
            payment_id: self.payment_id.clone(),
            url: self.url.clone(),
            payload: self.payload.clone(),
            event_type: text::clone_opt(&self.event_type),
            status: self.status.clone(),
            attempts: self.attempts,
            last_attempt: normalize_opt_ts(&self.last_attempt),
            acknowledged_at: normalize_opt_ts(&self.acknowledged_at),
            created_at: timestamp::normalize_ts(self.created_at.as_str()),
        }
    }
}

/// The payment that was minted for a merchant's idempotency key.
#[derive(Debug)]
pub struct IdempotencyKey {
    pub merchant_id: String,
    pub idempotency_key: String,
    pub payment_id: String,
    pub created_at: String,
}

/// The content of a [`IdempotencyKey`].
#[verifier::ext_equal]
pub struct IdempotencyKeyView {
    pub merchant_id: Seq<char>,
    pub idempotency_key: Seq<char>,
    pub payment_id: Seq<char>,
    pub created_at: Seq<char>,
}

impl View for IdempotencyKey {
    type V = IdempotencyKeyView;

    open spec fn view(&self) -> IdempotencyKeyView {
        IdempotencyKeyView {
            merchant_id: self.merchant_id@,
            idempotency_key: self.idempotency_key@,
            payment_id: self.payment_id@,
            created_at: self.created_at@,
        }
    }
}

impl Row for IdempotencyKey {
    fn copy(&self) -> (r: Self) {
        IdempotencyKey {
            merchant_id: self.merchant_id.clone(),
            idempotency_key: self.idempotency_key.clone(),
            payment_id: self.payment_id.clone(),
            created_at: self.created_at.clone(),
        }
    }
}

impl Clone for IdempotencyKey {
    fn clone(&self) -> (r: Self)
        ensures
            r@ == self@,
    {
        self.copy()
    }
}

impl IdempotencyKeyView {
    /// The row with its timestamps in normal form.
    pub open spec fn normalized(self) -> IdempotencyKeyView {
        IdempotencyKeyView {
            created_at: timestamp::normalized(self.created_at),
            ..self
        }
    }
}

impl Stored for IdempotencyKey {
    open spec fn handed_out(row: IdempotencyKeyView) -> IdempotencyKeyView {
        row.normalized()
    }

    fn hand_out(&self) -> (r: Self) {
        IdempotencyKey {
            merchant_id: self.merchant_id.clone(),
            idempotency_key: self.idempotency_key.clone(),
            payment_id: self.payment_id.clone(),
            created_at: timestamp::normalize_ts(self.created_at.as_str()),
        }
    }
}

/// A transaction that was credited to a payment.
#[derive(Debug)]
pub struct ProcessedTransaction {
    pub payment_id: String,
    pub tx_hash: String,
    pub amount_stroops: i64,
}

/// The content of a [`ProcessedTransaction`].
#[verifier::ext_equal]
pub struct ProcessedTransactionView {
    pub payment_id: Seq<char>,
    pub tx_hash: Seq<char>,
    pub amount_stroops: int,
}

impl View for ProcessedTransaction {
    type V = ProcessedTransactionView;

    open spec fn view(&self) -> ProcessedTransactionView {
        ProcessedTransactionView {
            payment_id: self.payment_id@,
            tx_hash: self.tx_hash@,
            amount_stroops: self.amount_stroops as int,
        }
    }
}

impl Row for ProcessedTransaction {
    fn copy(&self) -> (r: Self) {
        ProcessedTransaction {
            payment_id: self.payment_id.clone(),
            tx_hash: self.tx_hash.clone(),
            amount_stroops: self.amount_stroops,
        }
    }
}

impl Clone for ProcessedTransaction {
    fn clone(&self) -> (r: Self)
        ensures
            r@ == self@,
    {
        self.copy()
    }
}

/// An entry of the key-value state.
#[derive(Debug)]
pub struct KvEntry {
    pub key: String,
    pub value: String,
    pub updated_at: String,
}

/// The content of a [`KvEntry`].
#[verifier::ext_equal]
pub struct KvEntryView {
    pub key: Seq<char>,
    pub value: Seq<char>,
    pub updated_at: Seq<char>,
}

impl View for KvEntry {
    type V = KvEntryView;

    open spec fn view(&self) -> KvEntryView {
        KvEntryView {
            key: self.key@,
            value: self.value@,
            updated_at: self.updated_at@,
        }
    }
}

impl Row for KvEntry {
    fn copy(&self) -> (r: Self) {
        KvEntry {
            key: self.key.clone(),
            value: self.value.clone(),
            updated_at: self.updated_at.clone(),
        }
    }
}

impl Clone for KvEntry {
    fn clone(&self) -> (r: Self)
        ensures
            r@ == self@,
    {
        self.copy()
    }
}

impl KvEntryView {
    /// The row with its timestamps in normal form.
    pub open spec fn normalized(self) -> KvEntryView {
        KvEntryView {
            updated_at: timestamp::normalized(self.updated_at),
            ..self
        }
    }
}

impl Stored for KvEntry {
    open spec fn handed_out(row: KvEntryView) -> KvEntryView {
        row.normalized()
    }

    fn hand_out(&self) -> (r: Self) {
        KvEntry {
            key: self.key.clone(),
            value: self.value.clone(),
            updated_at: timestamp::normalize_ts(self.updated_at.as_str()),
        }
    }
}

} // verus!

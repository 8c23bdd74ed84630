//! Payment intents: creation, listing, settlement and expiry.
use vstd::prelude::*;

use crate::db::rows::{row_to_payment, NewPayment, Payment, PaymentView};
use crate::db::{Db, DbError, DbView};
use crate::money;
use crate::table;
use crate::table::{Change, Condition, RowOrder};
use crate::text;
use crate::timestamp;
use crate::timestamp::Moment;

verus! {

impl PaymentView {
    /// Whether a payment still awaits confirmation or a top-up.
    pub open spec fn watchable(self) -> bool {
        self.status == "pending"@ || self.status == "underpaid"@
    }

    /// Whether a payment's time has elapsed at a moment.
    pub open spec fn overdue(self, now: int) -> bool {
        !text::lex_lt(timestamp::timestamp_text(now), self.expires_at)
    }

    /// Whether a payment is in a merchant's list, filtered by status, behind a
    /// cursor.
    pub open spec fn listed(
        self,
        merchant_id: Seq<char>,
        status: Option<Seq<char>>,
        cursor: Option<(Seq<char>, Seq<char>)>,
    ) -> bool {
        &&& self.merchant_id == merchant_id
        &&& status matches Some(s) ==> self.status == s
        &&& cursor matches Some(c) ==> self.behind(c)
    }

    /// Whether a payment comes behind a cursor, newest first: it was created
    /// before the cursor's time, or at that time with a smaller id.
    pub open spec fn behind(self, cursor: (Seq<char>, Seq<char>)) -> bool {
        ||| text::lex_lt(self.created_at, cursor.0)
        ||| self.created_at == cursor.0 && text::lex_lt(self.id, cursor.1)
    }

    /// The payment, expired at a moment.
    pub open spec fn expired(self, now: int) -> PaymentView {
        PaymentView {
            status: "expired"@,
            updated_at: timestamp::timestamp_text(now),
            ..self
        }
    }

    /// The payment with a new status; a transaction hash and a paid amount
    /// replace what is stored only where they are given.
    pub open spec fn settled(
        self,
        new_status: Seq<char>,
        tx_hash: Option<Seq<char>>,
        paid_amount: Option<Seq<char>>,
        now: int,
    ) -> PaymentView {
        PaymentView {
            status: new_status,
            tx_hash: if tx_hash is Some {
                tx_hash
            } else {
                self.tx_hash
            },
            paid_amount: if paid_amount is Some {
                paid_amount
            } else {
                self.paid_amount
            },
            updated_at: timestamp::timestamp_text(now),
            ..self
        }
    }
}

/// Newest first; of payments created at one time, the one with the larger id.
pub open spec fn newest_first() -> spec_fn(PaymentView, PaymentView) -> bool {
    |a: PaymentView, b: PaymentView| b.behind((a.created_at, a.id))
}

/// Oldest first.
pub open spec fn oldest_first() -> spec_fn(PaymentView, PaymentView) -> bool {
    |a: PaymentView, b: PaymentView| text::lex_lt(a.created_at, b.created_at)
}

/// How payments are handed out: with their timestamps in normal form.
pub open spec fn handed_out(payments: Seq<PaymentView>) -> Seq<PaymentView> {
    payments.map_values(|p: PaymentView| p.normalized())
}

/// The row of a new payment intent, its amount in canonical form.
pub open spec fn new_payment_row(new: NewPayment, stroops: int, now: int) -> PaymentView {
    PaymentView {
        id: new.id@,
        merchant_id: new.merchant_id@,
        destination_address: new.destination_address@,
        memo: new.memo@,
        amount: money::amount_text(stroops),
        asset: new.asset@,
        status: "pending"@,
        webhook_url: text::opt_str_view(new.webhook_url),
        tx_hash: None,
        paid_amount: None,
        created_at: timestamp::timestamp_text(now),
        updated_at: timestamp::timestamp_text(now),
        expires_at: timestamp::timestamp_text(now + new.ttl_secs),
        asset_issuer: text::opt_str_view(new.asset_issuer),
    }
}

impl DbView {
    /// Whether a payment with this id exists.
    pub open spec fn has_payment(self, id: Seq<char>) -> bool {
        exists|i: int| 0 <= i < self.payments.len() && (#[trigger] self.payments[i]).id == id
    }

    /// The payment with this id, handed out.
    pub open spec fn payment(self, id: Seq<char>) -> Option<PaymentView> {
        match table::first(self.payments, |p: PaymentView| p.id == id) {
            Some(p) => Some(p.normalized()),
            None => None,
        }
    }

    /// The payments of a merchant's list, newest first.
    pub open spec fn merchant_list(
        self,
        merchant_id: Seq<char>,
        status: Option<Seq<char>>,
        cursor: Option<(Seq<char>, Seq<char>)>,
    ) -> Seq<PaymentView> {
        table::sorted(
            self.payments.filter(
                |p: PaymentView| p.listed(merchant_id, status, cursor),
            ),
            newest_first(),
        )
    }

    /// The payments that are watched at a moment, oldest first.
    pub open spec fn pending_list(self, now: int) -> Seq<PaymentView> {
        table::sorted(
            self.payments.filter(|p: PaymentView| p.watchable() && !p.overdue(now)),
            oldest_first(),
        )
    }

    /// The payment that is watched for a memo at a moment.
    pub open spec fn pending_by_memo(self, memo: Seq<char>, now: int) -> Option<PaymentView> {
        match table::first(
            self.payments,
            |p: PaymentView| p.memo == memo && p.watchable() && !p.overdue(now),
        ) {
            Some(p) => Some(p.normalized()),
            None => None,
        }
    }

    /// The watchable payments whose time has elapsed at a moment, oldest first.
    pub open spec fn overdue_list(self, now: int) -> Seq<PaymentView> {
        table::sorted(
            self.payments.filter(|p: PaymentView| p.watchable() && p.overdue(now)),
            oldest_first(),
        )
    }

    /// Whether a sweep of at most `batch` payments takes the payment with an id.
    pub open spec fn swept(self, batch: int, now: int, id: Seq<char>) -> bool {
        let batch = table::page(self.overdue_list(now), 0, batch);
        exists|i: int| 0 <= i < batch.len() && (#[trigger] batch[i]).id == id
    }

    /// The store after a sweep of at most `batch` payments.
    pub open spec fn after_sweep(self, batch: int, now: int) -> DbView {
        DbView {
            payments: table::edited(
                self.payments,
                |p: PaymentView| self.swept(batch, now, p.id),
                |p: PaymentView| p.expired(now),
            ),
            ..self
        }
    }

    /// The payments that a sweep takes, as it leaves them.
    pub open spec fn sweep_result(self, batch: int, now: int) -> Seq<PaymentView> {
        self.payments.filter(
            |p: PaymentView| self.swept(batch, now, p.id),
        ).map_values(|p: PaymentView| p.expired(now))
    }

    /// Whether a payment with this id can change its status.
    pub open spec fn can_settle(self, id: Seq<char>) -> bool {
        exists|i: int|
            0 <= i < self.payments.len() && (#[trigger] self.payments[i]).id == id
                && self.payments[i].watchable()
    }

    /// The store after a change of status: only a watchable payment changes.
    pub open spec fn after_settlement(
        self,
        id: Seq<char>,
        new_status: Seq<char>,
        tx_hash: Option<Seq<char>>,
        paid_amount: Option<Seq<char>>,
        now: int,
    ) -> DbView {
        DbView {
            payments: table::edited(
                self.payments,
                |p: PaymentView| p.id == id && p.watchable(),
                |p: PaymentView| p.settled(new_status, tx_hash, paid_amount, now),
            ),
            ..self
        }
    }
}

/// Whether a payment's status is `pending` or `underpaid`.
pub fn is_watchable(p: &Payment) -> (r: bool)
    ensures
        r == p@.watchable(),
{
    text::str_eq(p.status.as_str(), "pending") || text::str_eq(p.status.as_str(), "underpaid")
}

struct ById<'a> {
    id: &'a str,
}

impl<'a> Condition<Payment> for ById<'a> {
    closed spec fn holds(&self, row: PaymentView) -> bool {
        row.id == self.id@
    }

    fn check(&self, row: &Payment) -> (r: bool) {
        text::str_eq(row.id.as_str(), self.id)
    }
}

/// Fetches a payment.
pub fn get_payment(pool: &Db, id: &str) -> (r: Option<Payment>)
    ensures
        table::opt_row(r) == pool@.payment(id@),
{
    let c = ById { id };
    let row = table::find(&pool.payments, &c);
    assert(table::predicate::<Payment, ById>(c) =~= (|p: PaymentView| p.id == id@));
    table::hand_out_opt(row)
}

/// Creates a payment intent.
///
/// The amount is stored in canonical form, so that `10.00`, `10.0` and `10` are
/// stored and returned identically. The expiry is `now + ttl_secs`, in the same
/// form as the creation time.
pub fn create_payment(pool: &mut Db, new: NewPayment<'_>, now: &Moment) -> (r: Result<
    Payment,
    DbError,
>)
    ensures
        match r {
            Ok(p) => {
                &&& money::stroops_of(new.amount@) is Some
                &&& timestamp::in_range(now@ + new.ttl_secs)
                &&& !old(pool)@.has_payment(new.id@)
                &&& p@ == new_payment_row(new, money::stroops_of(new.amount@)->0, now@)
                &&& final(pool)@ == (DbView {
                    payments: old(pool)@.payments.push(p@),
                    ..old(pool)@
                })
            },
            Err(e) => {
                &&& e == (if money::stroops_of(new.amount@) is None {
                    DbError::InvalidAmount
                } else if !timestamp::in_range(now@ + new.ttl_secs) {
                    DbError::ExpiryOutOfRange
                } else {
                    DbError::DuplicateKey
                })
                &&& e == DbError::DuplicateKey ==> old(pool)@.has_payment(new.id@)
                &&& final(pool)@ == old(pool)@
            },
        },
        old(pool)@.inv() ==> final(pool)@.inv(),
{
    let stroops = match money::parse_stroops(new.amount) {
        Some(n) => n,
        None => {
            return Err(DbError::InvalidAmount);
        },
    };
    let expires = match now.plus(new.ttl_secs) {
        Some(m) => m,
        None => {
            return Err(DbError::ExpiryOutOfRange);
        },
    };
    let c = ById { id: new.id };
    let taken: usize = table::count(&pool.payments, &c);
    proof {
        lemma_has_payment(pool@, new.id@);
        assert(table::predicate::<Payment, ById>(c) =~= (|p: PaymentView| p.id == new.id@));
    }
    if taken > 0 {
        return Err(DbError::DuplicateKey);
    }
    let row = Payment {
        id: new.id.to_owned(),
        merchant_id: new.merchant_id.to_owned(),
        destination_address: new.destination_address.to_owned(),
        memo: new.memo.to_owned(),
        amount: money::stroops_to_string(stroops),
        asset: new.asset.to_owned(),
        status: "pending".to_owned(),
        webhook_url: text::own_opt(new.webhook_url),
        tx_hash: None,
        paid_amount: None,
        created_at: now.text(),
        updated_at: now.text(),
        expires_at: expires.text(),
        asset_issuer: text::own_opt(new.asset_issuer),
    };
    proof {
        timestamp::lemma_text_is_normal(now@);
        timestamp::lemma_text_is_normal(expires@);
    }
    let created = row_to_payment(&row);
    pool.payments.push(row);
    assert(pool@.payments =~= old(pool)@.payments.push(created@));
    Ok(created)
}

struct Listed<'a> {
    merchant_id: &'a str,
    status: Option<&'a str>,
    cursor: Option<(&'a str, &'a str)>,
}

/// The view of a cursor.
pub open spec fn cursor_view(cursor: Option<(&str, &str)>) -> Option<(Seq<char>, Seq<char>)> {
    match cursor {
        Some((ts, id)) => Some((ts@, id@)),
        None => None,
    }
}

impl<'a> Condition<Payment> for Listed<'a> {
    closed spec fn holds(&self, row: PaymentView) -> bool {
        row.listed(self.merchant_id@, text::opt_str_view(self.status), cursor_view(self.cursor))
    }

    fn check(&self, row: &Payment) -> (r: bool) {
        if !text::str_eq(row.merchant_id.as_str(), self.merchant_id) {
            return false;
        }
        if let Some(s) = self.status {
            if !text::str_eq(row.status.as_str(), s) {
                return false;
            }
        }
        match self.cursor {
            Some((ts, id)) => is_behind(row, ts, id),
            None => true,
        }
    }
}

/// Whether a payment comes behind a cursor.
fn is_behind(row: &Payment, ts: &str, id: &str) -> (r: bool)
    ensures
        r == row@.behind((ts@, id@)),
{
    text::str_lt(row.created_at.as_str(), ts) || (text::str_eq(row.created_at.as_str(), ts)
        && text::str_lt(row.id.as_str(), id))
}

struct NewestFirst;

impl RowOrder<Payment> for NewestFirst {
    closed spec fn before(a: PaymentView, b: PaymentView) -> bool {
        newest_first()(a, b)
    }

    fn is_before(a: &Payment, b: &Payment) -> (r: bool) {
        is_behind(b, a.created_at.as_str(), a.id.as_str())
    }
}

struct OldestFirst;

impl RowOrder<Payment> for OldestFirst {
    closed spec fn before(a: PaymentView, b: PaymentView) -> bool {
        oldest_first()(a, b)
    }

    fn is_before(a: &Payment, b: &Payment) -> (r: bool) {
        text::str_lt(a.created_at.as_str(), b.created_at.as_str())
    }
}

/// The payments of a merchant's list, newest first.
fn merchant_list(
    pool: &Db,
    merchant_id: &str,
    status: Option<&str>,
    cursor: Option<(&str, &str)>,
) -> (r: Vec<Payment>)
    ensures
        table::views(r@) == pool@.merchant_list(
            merchant_id@,
            text::opt_str_view(status),
            cursor_view(cursor),
        ),
{
    let c = Listed { merchant_id, status, cursor };
    let hits = table::select(&pool.payments, &c);
    proof {
        assert(table::predicate::<Payment, Listed>(c) =~= (|p: PaymentView|
            p.listed(merchant_id@, text::opt_str_view(status), cursor_view(cursor))));
        assert(table::relation::<Payment, NewestFirst>() =~= newest_first());
    }
    table::sort::<Payment, NewestFirst>(&hits)
}

/// A page of a merchant's payments, newest first, behind `offset` rows. Does not
/// count the rows: see [`count_payments`].
///
/// The order is that of [`list_payments_keyset`], so a cursor made from the last
/// row of a page resumes there.
pub fn list_payments(
    pool: &Db,
    merchant_id: &str,
    status: Option<&str>,
    limit: i64,
    offset: i64,
) -> (r: Vec<Payment>)
    ensures
        table::views(r@) == handed_out(
            table::page(
                pool@.merchant_list(merchant_id@, text::opt_str_view(status), None),
                offset as int,
                limit as int,
            ),
        ),
{
    let all = merchant_list(pool, merchant_id, status, None);
    let page = table::take_page(&all, offset, limit);
    assert(table::form::<Payment>() =~= (|p: PaymentView| p.normalized()));
    table::hand_out_all(&page)
}

/// The number of a merchant's payments, filtered by status.
pub fn count_payments(pool: &Db, merchant_id: &str, status: Option<&str>) -> (r: i64)
    ensures
        r == table::row_count(
            pool@.payments.filter(
                |p: PaymentView| p.listed(merchant_id@, text::opt_str_view(status), None),
            ).len(),
        ),
{
    let c = Listed { merchant_id, status, cursor: None };
    assert(table::predicate::<Payment, Listed>(c) =~= (|p: PaymentView|
        p.listed(merchant_id@, text::opt_str_view(status), None)));
    table::signed_count(table::count(&pool.payments, &c))
}

/// A page of a merchant's payments, newest first, behind a cursor: the creation
/// time and the id of the last payment of the page before.
pub fn list_payments_keyset(
    pool: &Db,
    merchant_id: &str,
    status: Option<&str>,
    limit: i64,
    cursor: Option<(&str, &str)>,
) -> (r: Vec<Payment>)
    ensures
        table::views(r@) == handed_out(
            table::page(
                pool@.merchant_list(
                    merchant_id@,
                    text::opt_str_view(status),
                    cursor_view(cursor),
                ),
                0,
                limit as int,
            ),
        ),
{
    let all = merchant_list(pool, merchant_id, status, cursor);
    let page = table::take_page(&all, 0, limit);
    assert(table::form::<Payment>() =~= (|p: PaymentView| p.normalized()));
    table::hand_out_all(&page)
}

struct Watched {
    now: String,
    overdue: bool,
}

impl Condition<Payment> for Watched {
    closed spec fn holds(&self, row: PaymentView) -> bool {
        row.watchable() && self.overdue == !text::lex_lt(self.now@, row.expires_at)
    }

    fn check(&self, row: &Payment) -> (r: bool) {
        is_watchable(row) && self.overdue == !text::str_lt(
            self.now.as_str(),
            row.expires_at.as_str(),
        )
    }
}

/// All payments still awaiting confirmation or top-up, oldest first. Payments
/// whose time has elapsed are left out even if they were not swept yet, so an
/// overdue intent is never polled.
pub fn list_pending(pool: &Db, now: &Moment) -> (r: Vec<Payment>)
    ensures
        table::views(r@) == handed_out(pool@.pending_list(now@)),
{
    let c = Watched { now: now.text(), overdue: false };
    let hits = table::select(&pool.payments, &c);
    proof {
        assert(table::predicate::<Payment, Watched>(c) =~= (|p: PaymentView|
            p.watchable() && !p.overdue(now@)));
        assert(table::relation::<Payment, OldestFirst>() =~= oldest_first());
        assert(table::form::<Payment>() =~= (|p: PaymentView| p.normalized()));
    }
    let in_order = table::sort::<Payment, OldestFirst>(&hits);
    table::hand_out_all(&in_order)
}

struct WatchedMemo<'a> {
    memo: &'a str,
    now: String,
}

impl<'a> Condition<Payment> for WatchedMemo<'a> {
    closed spec fn holds(&self, row: PaymentView) -> bool {
        row.memo == self.memo@ && row.watchable() && text::lex_lt(self.now@, row.expires_at)
    }

    fn check(&self, row: &Payment) -> (r: bool) {
        text::str_eq(row.memo.as_str(), self.memo) && is_watchable(row) && text::str_lt(
            self.now.as_str(),
            row.expires_at.as_str(),
        )
    }
}

/// The payment that awaits a transaction with this memo.
pub fn find_pending_by_memo(pool: &Db, memo: &str, now: &Moment) -> (r: Option<Payment>)
    ensures
        table::opt_row(r) == pool@.pending_by_memo(memo@, now@),
{
    let c = WatchedMemo { memo, now: now.text() };
    let row = table::find(&pool.payments, &c);
    assert(table::predicate::<Payment, WatchedMemo>(c) =~= (|p: PaymentView|
        p.memo == memo@ && p.watchable() && !p.overdue(now@)));
    table::hand_out_opt(row)
}

struct Settlement<'a> {
    id: &'a str,
    new_status: &'a str,
    tx_hash: Option<&'a str>,
    paid_amount: Option<&'a str>,
    now: String,
}

impl<'a> Condition<Payment> for Settlement<'a> {
    closed spec fn holds(&self, row: PaymentView) -> bool {
        row.id == self.id@ && row.watchable()
    }

    fn check(&self, row: &Payment) -> (r: bool) {
        text::str_eq(row.id.as_str(), self.id) && is_watchable(row)
    }
}

impl<'a> Change<Payment> for Settlement<'a> {
    closed spec fn changed(&self, row: PaymentView) -> PaymentView {
        PaymentView {
            updated_at: self.now@,
            ..row.settled(
                self.new_status@,
                text::opt_str_view(self.tx_hash),
                text::opt_str_view(self.paid_amount),
                0,
            )
        }
    }

    fn apply(&self, row: &Payment) -> (r: Payment) {
        let mut p = row.clone();
        p.status = self.new_status.to_owned();
        if self.tx_hash.is_some() {
            p.tx_hash = text::own_opt(self.tx_hash);
        }
        if self.paid_amount.is_some() {
            p.paid_amount = text::own_opt(self.paid_amount);
        }
        p.updated_at = self.now.clone();
        p
    }
}

/// Transitions a payment to a new status; whether it did.
///
/// Only a payment that is `pending` or `underpaid` changes, which is what lets
/// one settlement win where several compete: every other finds no such payment.
pub fn update_payment_status(
    pool: &mut Db,
    id: &str,
    new_status: &str,
    tx_hash: Option<&str>,
    paid_amount: Option<&str>,
    now: &Moment,
) -> (r: bool)
    ensures
        r == old(pool)@.can_settle(id@),
        final(pool)@ == old(pool)@.after_settlement(
            id@,
            new_status@,
            text::opt_str_view(tx_hash),
            text::opt_str_view(paid_amount),
            now@,
        ),
        old(pool)@.inv() ==> final(pool)@.inv(),
{
    let c = Settlement { id, new_status, tx_hash, paid_amount, now: now.text() };
    let n: usize = table::edit(&mut pool.payments, &c);
    proof {
        let p = |p: PaymentView| p.id == id@ && p.watchable();
        let f = |p: PaymentView|
            p.settled(new_status@, text::opt_str_view(tx_hash), text::opt_str_view(paid_amount), now@);
        assert(table::predicate::<Payment, Settlement>(c) =~= p);
        assert(table::change::<Payment, Settlement>(c) =~= f);
        table::lemma_filter_nonempty(old(pool)@.payments, p);
        lemma_same_ids_keep_inv(old(pool)@, pool@);
    }
    n > 0
}

struct IdIn<'a> {
    rows: &'a Vec<Payment>,
    now: String,
}

impl<'a> Condition<Payment> for IdIn<'a> {
    closed spec fn holds(&self, row: PaymentView) -> bool {
        let batch = table::views(self.rows@);
        exists|i: int| 0 <= i < batch.len() && (#[trigger] batch[i]).id == row.id
    }

    fn check(&self, row: &Payment) -> (r: bool) {
        let ghost batch = table::views(self.rows@);
        let mut i: usize = 0;
        while i < self.rows.len()
            invariant
                i <= self.rows.len(),
                batch == table::views(self.rows@),
                forall|j: int| 0 <= j < i ==> (#[trigger] batch[j]).id != row@.id,
            decreases self.rows.len() - i,
        {
            if text::str_eq(self.rows[i].id.as_str(), row.id.as_str()) {
                assert(batch[i as int].id == row@.id);
                return true;
            }
            i += 1;
        }
        false
    }
}

impl<'a> Change<Payment> for IdIn<'a> {
    closed spec fn changed(&self, row: PaymentView) -> PaymentView {
        PaymentView { updated_at: self.now@, ..row.expired(0) }
    }

    fn apply(&self, row: &Payment) -> (r: Payment) {
        let mut p = row.clone();
        p.status = "expired".to_owned();
        p.updated_at = self.now.clone();
        p
    }
}

/// Transitions at most `batch` watchable payments whose time has elapsed, the
/// oldest first, to `expired`, and returns them as they are then.
///
/// A payment that was settled first is not watchable and is left alone; one that
/// is swept here is refused by [`update_payment_status`] from then on.
pub fn expire_overdue(pool: &mut Db, batch: i64, now: &Moment) -> (r: Vec<Payment>)
    ensures
        table::views(r@) == handed_out(old(pool)@.sweep_result(batch as int, now@)),
        final(pool)@ == old(pool)@.after_sweep(batch as int, now@),
        old(pool)@.inv() ==> final(pool)@.inv(),
{
    let c = Watched { now: now.text(), overdue: true };
    let hits = table::select(&pool.payments, &c);
    proof {
        assert(table::predicate::<Payment, Watched>(c) =~= (|p: PaymentView|
            p.watchable() && p.overdue(now@)));
        assert(table::relation::<Payment, OldestFirst>() =~= oldest_first());
    }
    let in_order = table::sort::<Payment, OldestFirst>(&hits);
    let chosen = table::take_page(&in_order, 0, batch);
    let sweep = IdIn { rows: &chosen, now: now.text() };
    let ghost p = |p: PaymentView| pool@.swept(batch as int, now@, p.id);
    let ghost f = |p: PaymentView| p.expired(now@);
    proof {
        assert(table::predicate::<Payment, IdIn>(sweep) =~= p);
        assert(table::change::<Payment, IdIn>(sweep) =~= f);
    }
    let taken = table::select(&pool.payments, &sweep);
    let mut out: Vec<Payment> = Vec::new();
    let mut i: usize = 0;
    while i < taken.len()
        invariant
            table::change::<Payment, IdIn>(sweep) == f,
            i <= taken.len(),
            out.len() == i,
            forall|j: int|
                0 <= j < i ==> (#[trigger] out@[j])@ == f(taken@[j]@).normalized(),
        decreases taken.len() - i,
    {
        let swept = sweep.apply(&taken[i]);
        assert(swept@ == f(taken@[i as int]@));
        out.push(row_to_payment(&swept));
        i += 1;
    }
    table::edit(&mut pool.payments, &sweep);
    assert(table::views(out@) =~= handed_out(old(pool)@.sweep_result(batch as int, now@)));
    proof {
        lemma_same_ids_keep_inv(old(pool)@, pool@);
    }
    out
}

/// A change of payments that keeps their ids keeps the primary keys.
pub proof fn lemma_same_ids_keep_inv(before: DbView, after: DbView)
    requires
        after == (DbView { payments: after.payments, ..before }),
        after.payments.len() == before.payments.len(),
        forall|i: int|
            0 <= i < before.payments.len() ==> (#[trigger] after.payments[i]).id
                == before.payments[i].id,
    ensures
        before.inv() ==> after.inv(),
{
    if before.inv() {
        assert forall|i: int, j: int| 0 <= i < j < after.payments.len() implies (
        #[trigger] after.payments[i]).id != (#[trigger] after.payments[j]).id by {
            assert(before.payments[i].id != before.payments[j].id);
        }
    }
}

proof fn lemma_has_payment(v: DbView, id: Seq<char>)
    ensures
        v.has_payment(id) <==> v.payments.filter(|p: PaymentView| p.id == id).len() > 0,
{
    table::lemma_filter_nonempty(v.payments, |p: PaymentView| p.id == id);
}

} // verus!

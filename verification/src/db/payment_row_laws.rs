//! What the operations on payments do, told by the fields of the stored rows.
use vstd::prelude::*;

use crate::db::payment_laws;
use crate::db::payments;
use crate::db::rows::{NewPayment, PaymentView};
use crate::db::DbView;
use crate::money;
use crate::table;
use crate::text;
use crate::timestamp;

verus! {

/// A new intent is `pending` and unpaid. It has the fields that were asked for,
/// was created and updated now, and expires `ttl_secs` seconds later.
pub proof fn law_new_intent(new: NewPayment, stroops: int, now: int)
    ensures
        ({
            let p = payments::new_payment_row(new, stroops, now);
            &&& p.id == new.id@
            &&& p.merchant_id == new.merchant_id@
            &&& p.destination_address == new.destination_address@
            &&& p.memo == new.memo@
            &&& p.asset == new.asset@
            &&& new.asset_issuer matches Some(a) ==> p.asset_issuer == Some(a@)
            &&& new.asset_issuer is None ==> p.asset_issuer is None
            &&& new.webhook_url matches Some(u) ==> p.webhook_url == Some(u@)
            &&& new.webhook_url is None ==> p.webhook_url is None
            &&& p.status == "pending"@
            &&& p.tx_hash is None
            &&& p.paid_amount is None
            &&& p.created_at == timestamp::timestamp_text(now)
            &&& p.updated_at == timestamp::timestamp_text(now)
            &&& p.expires_at == timestamp::timestamp_text(now + new.ttl_secs)
            &&& 0 < stroops <= i64::MAX ==> money::stroops_of(p.amount) == Some(stroops)
        }),
{
    if 0 < stroops <= i64::MAX {
        money::lemma_amount_reads_back(stroops);
    }
}

/// Handing payments out keeps each of them in its place and changes none but the
/// form of its timestamps.
pub proof fn law_payments_are_handed_out_whole(s: Seq<PaymentView>, i: int)
    requires
        0 <= i < s.len(),
    ensures
        payments::handed_out(s).len() == s.len(),
        ({
            let p = s[i];
            let q = payments::handed_out(s)[i];
            &&& q == p.normalized()
            &&& q.id == p.id
            &&& q.merchant_id == p.merchant_id
            &&& q.destination_address == p.destination_address
            &&& q.memo == p.memo
            &&& q.amount == p.amount
            &&& q.asset == p.asset
            &&& q.asset_issuer == p.asset_issuer
            &&& q.status == p.status
            &&& q.webhook_url == p.webhook_url
            &&& q.tx_hash == p.tx_hash
            &&& q.paid_amount == p.paid_amount
            &&& q.created_at == timestamp::normalized(p.created_at)
            &&& q.updated_at == timestamp::normalized(p.updated_at)
            &&& q.expires_at == timestamp::normalized(p.expires_at)
        }),
{
}

/// A stored payment is found by its id, and nothing is found by an id that no
/// payment has.
pub proof fn law_payment_is_found_by_id(v: DbView, i: int, id: Seq<char>)
    requires
        v.inv(),
    ensures
        0 <= i < v.payments.len() ==> v.payment(v.payments[i].id) == Some(
            v.payments[i].normalized(),
        ),
        (forall|j: int| 0 <= j < v.payments.len() ==> (#[trigger] v.payments[j]).id != id)
            ==> v.payment(id) is None,
        v.has_payment(id) <==> v.payment(id) is Some,
{
    let q = |p: PaymentView| p.id == id;
    table::lemma_filter_nonempty(v.payments, q);
    if 0 <= i < v.payments.len() {
        let p = |p: PaymentView| p.id == v.payments[i].id;
        table::lemma_first_is_only(v.payments, p, i);
    }
}

/// A merchant's list holds a payment exactly when it is stored, belongs to the
/// merchant and, where a status is asked for, has that status; behind a cursor, it
/// must also have been created before it, or at its time with a smaller id.
pub proof fn law_list_holds_the_merchants_payments(
    v: DbView,
    merchant_id: Seq<char>,
    status: Seq<char>,
    ts: Seq<char>,
    id: Seq<char>,
    p: PaymentView,
)
    ensures
        v.merchant_list(merchant_id, None, None).contains(p) <==> v.payments.contains(p)
            && p.merchant_id == merchant_id,
        v.merchant_list(merchant_id, Some(status), None).contains(p) <==> v.payments.contains(p)
            && p.merchant_id == merchant_id && p.status == status,
        v.merchant_list(merchant_id, None, Some((ts, id))).contains(p) <==> v.payments.contains(p)
            && p.merchant_id == merchant_id && (text::lex_lt(p.created_at, ts) || (p.created_at
            == ts && text::lex_lt(p.id, id))),
        v.merchant_list(merchant_id, Some(status), Some((ts, id))).contains(p)
            <==> v.payments.contains(p) && p.merchant_id == merchant_id && p.status == status && (
        text::lex_lt(p.created_at, ts) || (p.created_at == ts && text::lex_lt(p.id, id))),
{
    lemma_list_member(v, merchant_id, None, None, p);
    lemma_list_member(v, merchant_id, Some(status), None, p);
    lemma_list_member(v, merchant_id, None, Some((ts, id)), p);
    lemma_list_member(v, merchant_id, Some(status), Some((ts, id)), p);
}

proof fn lemma_list_member(
    v: DbView,
    merchant_id: Seq<char>,
    status: Option<Seq<char>>,
    cursor: Option<(Seq<char>, Seq<char>)>,
    p: PaymentView,
)
    ensures
        v.merchant_list(merchant_id, status, cursor).contains(p) <==> v.payments.contains(p)
            && p.listed(merchant_id, status, cursor),
{
    let q = |p: PaymentView| p.listed(merchant_id, status, cursor);
    table::lemma_sorted_same_rows(v.payments.filter(q), payments::newest_first());
    table::lemma_filter_members(v.payments, q, p);
}

/// A merchant's list has as many rows as the merchant has payments, or payments of
/// the status, and the count says so.
pub proof fn law_list_is_as_long_as_the_count(
    v: DbView,
    merchant_id: Seq<char>,
    status: Seq<char>,
)
    ensures
        ({
            let all = v.payments.filter(|p: PaymentView| p.merchant_id == merchant_id);
            let some = v.payments.filter(
                |p: PaymentView| p.merchant_id == merchant_id && p.status == status,
            );
            &&& v.merchant_list(merchant_id, None, None).len() == all.len()
            &&& v.merchant_list(merchant_id, Some(status), None).len() == some.len()
            &&& v.payments.filter(|p: PaymentView| p.listed(merchant_id, None, None)) == all
            &&& v.payments.filter(|p: PaymentView| p.listed(merchant_id, Some(status), None))
                == some
        }),
{
    let all = |p: PaymentView| p.merchant_id == merchant_id;
    let some = |p: PaymentView| p.merchant_id == merchant_id && p.status == status;
    let listed = |p: PaymentView| p.listed(merchant_id, None, None);
    let listed_some = |p: PaymentView| p.listed(merchant_id, Some(status), None);
    table::lemma_filter_same(v.payments, listed, all);
    table::lemma_filter_same(v.payments, listed_some, some);
    table::lemma_sorted_same_rows(v.payments.filter(listed), payments::newest_first());
    table::lemma_sorted_same_rows(v.payments.filter(listed_some), payments::newest_first());
}

/// A merchant's list is newest first: a later row was created before an earlier
/// one, or at its time with a smaller id.
pub proof fn law_list_is_newest_first(
    v: DbView,
    merchant_id: Seq<char>,
    status: Option<Seq<char>>,
    cursor: Option<(Seq<char>, Seq<char>)>,
    i: int,
    j: int,
)
    requires
        v.inv(),
        0 <= i < j < v.merchant_list(merchant_id, status, cursor).len(),
    ensures
        ({
            let list = v.merchant_list(merchant_id, status, cursor);
            ||| text::lex_lt(list[j].created_at, list[i].created_at)
            ||| list[j].created_at == list[i].created_at && text::lex_lt(list[j].id, list[i].id)
        }),
{
    payment_laws::law_merchant_list(v, merchant_id, status, cursor);
    let list = v.merchant_list(merchant_id, status, cursor);
    assert(list[j].behind((list[i].created_at, list[i].id)));
}

/// A payment is watched exactly while it is `pending` or `underpaid` and expires
/// behind the current time, and overdue exactly when it is `pending` or
/// `underpaid` and does not.
pub proof fn law_watched_and_overdue(v: DbView, now: int, p: PaymentView)
    ensures
        v.pending_list(now).contains(p) <==> v.payments.contains(p) && (p.status == "pending"@
            || p.status == "underpaid"@) && text::lex_lt(
            timestamp::timestamp_text(now),
            p.expires_at,
        ),
        v.overdue_list(now).contains(p) <==> v.payments.contains(p) && (p.status == "pending"@
            || p.status == "underpaid"@) && !text::lex_lt(
            timestamp::timestamp_text(now),
            p.expires_at,
        ),
{
    let w = |p: PaymentView| p.watchable() && !p.overdue(now);
    let o = |p: PaymentView| p.watchable() && p.overdue(now);
    table::lemma_sorted_same_rows(v.payments.filter(w), payments::oldest_first());
    table::lemma_filter_members(v.payments, w, p);
    table::lemma_sorted_same_rows(v.payments.filter(o), payments::oldest_first());
    table::lemma_filter_members(v.payments, o, p);
}

/// An open payment is watched until the second at which it expires, and overdue
/// from then on, whatever its other fields are.
pub proof fn law_open_payment_expires_at_its_second(v: DbView, i: int, expires: int, now: int)
    requires
        0 <= i < v.payments.len(),
        v.payments[i].status == "pending"@ || v.payments[i].status == "underpaid"@,
        v.payments[i].expires_at == timestamp::timestamp_text(expires),
        timestamp::in_range(expires),
        timestamp::in_range(now),
    ensures
        v.overdue_list(now).contains(v.payments[i]) <==> expires <= now,
        v.pending_list(now).contains(v.payments[i]) <==> now < expires,
{
    law_watched_and_overdue(v, now, v.payments[i]);
    timestamp::lemma_text_order_is_time_order(now, expires);
}

/// The watched and the overdue payments come oldest first, and those created at
/// one time in the order in which they were stored.
pub proof fn law_open_payments_come_oldest_first(v: DbView, now: int, i: int, j: int)
    ensures
        0 <= i < j < v.pending_list(now).len() ==> !text::lex_lt(
            v.pending_list(now)[j].created_at,
            v.pending_list(now)[i].created_at,
        ),
        0 <= i < j < v.overdue_list(now).len() ==> !text::lex_lt(
            v.overdue_list(now)[j].created_at,
            v.overdue_list(now)[i].created_at,
        ),
        v.pending_list(now).to_multiset() == v.payments.filter(
            |p: PaymentView|
                (p.status == "pending"@ || p.status == "underpaid"@) && text::lex_lt(
                    timestamp::timestamp_text(now),
                    p.expires_at,
                ),
        ).to_multiset(),
        v.overdue_list(now).to_multiset() == v.payments.filter(
            |p: PaymentView|
                (p.status == "pending"@ || p.status == "underpaid"@) && !text::lex_lt(
                    timestamp::timestamp_text(now),
                    p.expires_at,
                ),
        ).to_multiset(),
{
    let w = |p: PaymentView| p.watchable() && !p.overdue(now);
    let o = |p: PaymentView| p.watchable() && p.overdue(now);
    let w2 = |p: PaymentView|
        (p.status == "pending"@ || p.status == "underpaid"@) && text::lex_lt(
            timestamp::timestamp_text(now),
            p.expires_at,
        );
    let o2 = |p: PaymentView|
        (p.status == "pending"@ || p.status == "underpaid"@) && !text::lex_lt(
            timestamp::timestamp_text(now),
            p.expires_at,
        );
    let before = payments::oldest_first();
    payment_laws::lemma_oldest_first_is_order();
    table::lemma_sorted(v.payments.filter(w), before);
    table::lemma_sorted(v.payments.filter(o), before);
    table::lemma_filter_same(v.payments, w, w2);
    table::lemma_filter_same(v.payments, o, o2);
    if 0 <= i < j < v.pending_list(now).len() {
        assert(!before(v.pending_list(now)[j], v.pending_list(now)[i]));
    }
    if 0 <= i < j < v.overdue_list(now).len() {
        assert(!before(v.overdue_list(now)[j], v.overdue_list(now)[i]));
    }
}

/// A memo finds a payment exactly when a stored payment has that memo, is
/// `pending` or `underpaid`, and expires behind the current time; what it finds is
/// such a payment, as it is handed out.
pub proof fn law_memo_finds_an_open_payment(v: DbView, memo: Seq<char>, now: int)
    ensures
        v.pending_by_memo(memo, now) is Some <==> exists|i: int|
            0 <= i < v.payments.len() && (#[trigger] v.payments[i]).memo == memo && (
            v.payments[i].status == "pending"@ || v.payments[i].status == "underpaid"@)
                && text::lex_lt(timestamp::timestamp_text(now), v.payments[i].expires_at),
        v.pending_by_memo(memo, now) matches Some(p) ==> exists|i: int|
            0 <= i < v.payments.len() && (#[trigger] v.payments[i]).memo == memo && (
            v.payments[i].status == "pending"@ || v.payments[i].status == "underpaid"@)
                && text::lex_lt(timestamp::timestamp_text(now), v.payments[i].expires_at) && p
                == v.payments[i].normalized(),
{
    let q = |p: PaymentView| p.memo == memo && p.watchable() && !p.overdue(now);
    table::lemma_filter_nonempty(v.payments, q);
    if exists|i: int|
        0 <= i < v.payments.len() && (#[trigger] v.payments[i]).memo == memo && (
        v.payments[i].status == "pending"@ || v.payments[i].status == "underpaid"@)
            && text::lex_lt(timestamp::timestamp_text(now), v.payments[i].expires_at) {
        let i = choose|i: int|
            0 <= i < v.payments.len() && (#[trigger] v.payments[i]).memo == memo && (
            v.payments[i].status == "pending"@ || v.payments[i].status == "underpaid"@)
                && text::lex_lt(timestamp::timestamp_text(now), v.payments[i].expires_at);
        assert(q(v.payments[i]));
    }
    let hits = v.payments.filter(q);
    if hits.len() > 0 {
        table::lemma_filter_members(v.payments, q, hits[0]);
        assert(hits.contains(hits[0]));
        let i = choose|i: int| 0 <= i < v.payments.len() && v.payments[i] == hits[0];
        assert(v.payments[i].memo == memo);
    }
}

/// The payment that a memo finds is one that is polled, and a memo finds a payment
/// whenever one that is polled has it.
pub proof fn law_memo_finds_what_is_polled(v: DbView, memo: Seq<char>, now: int)
    ensures
        v.pending_by_memo(memo, now) is Some <==> exists|k: int|
            0 <= k < v.pending_list(now).len() && (#[trigger] v.pending_list(now)[k]).memo == memo,
{
    law_memo_finds_an_open_payment(v, memo, now);
    let list = v.pending_list(now);
    if v.pending_by_memo(memo, now) is Some {
        let i = choose|i: int|
            0 <= i < v.payments.len() && (#[trigger] v.payments[i]).memo == memo && (
            v.payments[i].status == "pending"@ || v.payments[i].status == "underpaid"@)
                && text::lex_lt(timestamp::timestamp_text(now), v.payments[i].expires_at);
        law_watched_and_overdue(v, now, v.payments[i]);
        assert(v.payments.contains(v.payments[i]));
        let k = choose|k: int| 0 <= k < list.len() && list[k] == v.payments[i];
        assert(list[k].memo == memo);
    }
    if exists|k: int| 0 <= k < list.len() && (#[trigger] list[k]).memo == memo {
        let k = choose|k: int| 0 <= k < list.len() && (#[trigger] list[k]).memo == memo;
        law_watched_and_overdue(v, now, list[k]);
        assert(list.contains(list[k]));
        let i = choose|i: int| 0 <= i < v.payments.len() && v.payments[i] == list[k];
        assert(v.payments[i].memo == memo);
    }
}

/// A change of status succeeds exactly when a payment with the id is `pending` or
/// `underpaid`.
pub proof fn law_open_payment_can_settle(v: DbView, id: Seq<char>)
    ensures
        v.can_settle(id) <==> exists|i: int|
            0 <= i < v.payments.len() && (#[trigger] v.payments[i]).id == id && (
            v.payments[i].status == "pending"@ || v.payments[i].status == "underpaid"@),
{
    if v.can_settle(id) {
        let i = choose|i: int|
            0 <= i < v.payments.len() && (#[trigger] v.payments[i]).id == id
                && v.payments[i].watchable();
        assert(v.payments[i].id == id);
    }
    if exists|i: int|
        0 <= i < v.payments.len() && (#[trigger] v.payments[i]).id == id && (v.payments[i].status
            == "pending"@ || v.payments[i].status == "underpaid"@) {
        let i = choose|i: int|
            0 <= i < v.payments.len() && (#[trigger] v.payments[i]).id == id && (
            v.payments[i].status == "pending"@ || v.payments[i].status == "underpaid"@);
        assert(v.payments[i].watchable());
    }
}

/// What a change of status writes: the given status and the current time, and a
/// hash or an amount that is given, whatever was stored before; one that is not
/// given stays. Every other field, every other payment and every other table stays.
pub proof fn law_settlement_writes_what_is_given(
    v: DbView,
    id: Seq<char>,
    status: Seq<char>,
    tx_hash: Option<Seq<char>>,
    paid_amount: Option<Seq<char>>,
    now: int,
    i: int,
)
    requires
        0 <= i < v.payments.len(),
    ensures
        ({
            let after = v.after_settlement(id, status, tx_hash, paid_amount, now);
            let p = v.payments[i];
            let q = after.payments[i];
            &&& after.payments.len() == v.payments.len()
            &&& after == (DbView { payments: after.payments, ..v })
            &&& p.id != id || (p.status != "pending"@ && p.status != "underpaid"@) ==> q == p
            &&& p.id == id && (p.status == "pending"@ || p.status == "underpaid"@) ==> {
                &&& q.status == status
                &&& q.updated_at == timestamp::timestamp_text(now)
                &&& tx_hash is Some ==> q.tx_hash == tx_hash
                &&& tx_hash is None ==> q.tx_hash == p.tx_hash
                &&& paid_amount is Some ==> q.paid_amount == paid_amount
                &&& paid_amount is None ==> q.paid_amount == p.paid_amount
                &&& q.id == p.id
                &&& q.merchant_id == p.merchant_id
                &&& q.destination_address == p.destination_address
                &&& q.memo == p.memo
                &&& q.amount == p.amount
                &&& q.asset == p.asset
                &&& q.asset_issuer == p.asset_issuer
                &&& q.webhook_url == p.webhook_url
                &&& q.created_at == p.created_at
                &&& q.expires_at == p.expires_at
            }
        }),
{
}

/// What a sweep does to a payment: either nothing, or the payment was `pending` or
/// `underpaid` and did not expire behind the current time, and is `expired` now,
/// with no other field changed but the time of the update. A sweep without limit
/// takes every such payment.
pub proof fn law_sweep_expires_open_payments(v: DbView, batch: int, now: int, i: int)
    requires
        v.inv(),
        0 <= i < v.payments.len(),
    ensures
        ({
            let after = v.after_sweep(batch, now);
            let p = v.payments[i];
            let q = after.payments[i];
            let due = (p.status == "pending"@ || p.status == "underpaid"@) && !text::lex_lt(
                timestamp::timestamp_text(now),
                p.expires_at,
            );
            &&& after.payments.len() == v.payments.len()
            &&& after == (DbView { payments: after.payments, ..v })
            &&& !due ==> q == p
            &&& batch < 0 && due ==> q != p
            &&& q != p ==> {
                &&& q.status == "expired"@
                &&& q.updated_at == timestamp::timestamp_text(now)
                &&& q.id == p.id
                &&& q.merchant_id == p.merchant_id
                &&& q.destination_address == p.destination_address
                &&& q.memo == p.memo
                &&& q.amount == p.amount
                &&& q.asset == p.asset
                &&& q.asset_issuer == p.asset_issuer
                &&& q.webhook_url == p.webhook_url
                &&& q.tx_hash == p.tx_hash
                &&& q.paid_amount == p.paid_amount
                &&& q.created_at == p.created_at
                &&& q.expires_at == p.expires_at
            }
        }),
{
    let p = v.payments[i];
    payment_laws::law_completed_and_expired_are_final();
    if v.swept(batch, now, p.id) {
        payment_laws::lemma_swept_is_overdue(v, batch, now, i);
    }
    let list = v.overdue_list(now);
    if batch < 0 && p.watchable() && p.overdue(now) {
        payment_laws::lemma_overdue_member(v, now, p);
        assert(v.payments.contains(p));
        let k = choose|k: int| 0 <= k < list.len() && list[k] == p;
        assert(table::page(list, 0, batch)[k].id == p.id);
    }
}

/// A sweep returns exactly the payments that it changed, as it left them.
pub proof fn law_sweep_returns_what_it_changed(v: DbView, batch: int, now: int, q: PaymentView)
    requires
        v.inv(),
    ensures
        v.sweep_result(batch, now).contains(q) <==> exists|i: int|
            0 <= i < v.payments.len() && #[trigger] v.after_sweep(batch, now).payments[i] == q
                && v.payments[i] != q,
{
    let after = v.after_sweep(batch, now);
    let swept = |p: PaymentView| v.swept(batch, now, p.id);
    let hits = v.payments.filter(swept);
    let out = v.sweep_result(batch, now);
    if out.contains(q) {
        let k = choose|k: int| 0 <= k < out.len() && out[k] == q;
        table::lemma_filter_members(v.payments, swept, hits[k]);
        assert(hits.contains(hits[k]));
        let i = choose|i: int| 0 <= i < v.payments.len() && v.payments[i] == hits[k];
        payment_laws::lemma_swept_is_overdue(v, batch, now, i);
        payment_laws::law_completed_and_expired_are_final();
        assert(after.payments[i] == q && v.payments[i] != q);
    }
    if exists|i: int|
        0 <= i < v.payments.len() && #[trigger] after.payments[i] == q && v.payments[i] != q {
        let i = choose|i: int|
            0 <= i < v.payments.len() && #[trigger] after.payments[i] == q && v.payments[i] != q;
        assert(swept(v.payments[i]));
        table::lemma_filter_members(v.payments, swept, v.payments[i]);
        assert(v.payments.contains(v.payments[i]));
        let k = choose|k: int| 0 <= k < hits.len() && hits[k] == v.payments[i];
        assert(out[k] == q);
    }
}

/// A sweep takes the oldest: no payment that it leaves overdue was created before
/// one that it takes.
pub proof fn law_sweep_takes_the_oldest(v: DbView, batch: int, now: int, taken: int, left: int)
    requires
        v.inv(),
        0 <= taken < v.payments.len(),
        0 <= left < v.payments.len(),
        v.after_sweep(batch, now).payments[taken] != v.payments[taken],
        v.after_sweep(batch, now).payments[left] == v.payments[left],
        v.payments[left].status == "pending"@ || v.payments[left].status == "underpaid"@,
        !text::lex_lt(timestamp::timestamp_text(now), v.payments[left].expires_at),
    ensures
        !text::lex_lt(v.payments[left].created_at, v.payments[taken].created_at),
{
    let list = v.overdue_list(now);
    let page = table::page(list, 0, batch);
    let o = |p: PaymentView| p.watchable() && p.overdue(now);
    let before = payments::oldest_first();
    payment_laws::law_completed_and_expired_are_final();
    payment_laws::lemma_oldest_first_is_order();
    table::lemma_sorted_in_order(v.payments.filter(o), before);
    let k = choose|k: int| 0 <= k < page.len() && (#[trigger] page[k]).id == v.payments[taken].id;
    payment_laws::lemma_overdue_member(v, now, page[k]);
    assert(list[k] == page[k]);
    assert(list.contains(list[k]));
    let j = choose|j: int| 0 <= j < v.payments.len() && v.payments[j] == page[k];
    assert(j == taken);
    payment_laws::lemma_overdue_member(v, now, v.payments[left]);
    assert(v.payments.contains(v.payments[left]));
    let m = choose|m: int| 0 <= m < list.len() && list[m] == v.payments[left];
    if m < page.len() {
        assert(page[m].id == v.payments[left].id);
        assert(v.swept(batch, now, v.payments[left].id));
    }
    assert(!before(list[m], list[k]));
}

} // verus!

//! Laws of payment intents: pagination, single settlement, expiry.
use vstd::prelude::*;

use crate::db::payments;
use crate::db::rows::{NewPayment, PaymentView};
use crate::db::DbView;
use crate::money;
use crate::table;
use crate::text;
use crate::timestamp;

verus! {

spec fn id_of() -> spec_fn(PaymentView) -> Seq<char> {
    |p: PaymentView| p.id
}

/// Newest first is an order.
proof fn lemma_newest_first_is_order()
    ensures
        table::is_order(payments::newest_first()),
{
    let before = payments::newest_first();
    assert forall|a: PaymentView, b: PaymentView| #[trigger] before(a, b) implies !before(b, a) by {
        if text::lex_lt(b.created_at, a.created_at) && text::lex_lt(a.created_at, b.created_at) {
            text::lemma_lex_transitive(a.created_at, b.created_at, a.created_at);
        }
        text::lemma_lex_irreflexive(a.created_at);
        if text::lex_lt(b.id, a.id) && text::lex_lt(a.id, b.id) {
            text::lemma_lex_transitive(a.id, b.id, a.id);
        }
        text::lemma_lex_irreflexive(a.id);
    }
    assert forall|a: PaymentView, b: PaymentView, c: PaymentView|
        !(#[trigger] before(a, b)) && !(#[trigger] before(b, c)) implies !before(a, c) by {
        if before(a, c) {
            text::lemma_lex_total(a.created_at, b.created_at);
            text::lemma_lex_total(b.created_at, c.created_at);
            text::lemma_lex_total(a.id, b.id);
            text::lemma_lex_total(b.id, c.id);
            lemma_not_behind_transitive(a, b, c);
        }
    }
}

/// A payment that does not come behind a second, which does not come behind a
/// third, does not come behind this.
proof fn lemma_not_behind_transitive(a: PaymentView, b: PaymentView, c: PaymentView)
    requires
        !b.behind((a.created_at, a.id)),
        !c.behind((b.created_at, b.id)),
    ensures
        !c.behind((a.created_at, a.id)),
{
    text::lemma_lex_total(a.created_at, b.created_at);
    text::lemma_lex_total(b.created_at, c.created_at);
    text::lemma_lex_total(a.id, b.id);
    text::lemma_lex_total(b.id, c.id);
    text::lemma_lex_irreflexive(a.created_at);
    text::lemma_lex_irreflexive(a.id);
    if text::lex_lt(c.created_at, a.created_at) {
        if text::lex_lt(a.created_at, b.created_at) {
            text::lemma_lex_transitive(c.created_at, a.created_at, b.created_at);
        }
    }
    if c.created_at == a.created_at && text::lex_lt(c.id, a.id) {
        if text::lex_lt(a.created_at, b.created_at) {
        } else if text::lex_lt(a.id, b.id) {
            text::lemma_lex_transitive(c.id, a.id, b.id);
        }
    }
}

/// Oldest first is an order.
pub proof fn lemma_oldest_first_is_order()
    ensures
        table::is_order(payments::oldest_first()),
{
    let before = payments::oldest_first();
    assert forall|a: PaymentView, b: PaymentView| #[trigger] before(a, b) implies !before(b, a) by {
        if before(b, a) {
            text::lemma_lex_transitive(a.created_at, b.created_at, a.created_at);
        }
        text::lemma_lex_irreflexive(a.created_at);
    }
    assert forall|a: PaymentView, b: PaymentView, c: PaymentView|
        !(#[trigger] before(a, b)) && !(#[trigger] before(b, c)) implies !before(a, c) by {
        if before(a, c) {
            text::lemma_lex_total(a.created_at, b.created_at);
            if text::lex_lt(b.created_at, a.created_at) {
                text::lemma_lex_transitive(b.created_at, a.created_at, c.created_at);
            }
        }
    }
}

/// Coming behind is transitive.
proof fn lemma_behind_transitive(p: PaymentView, q: PaymentView, cursor: (Seq<char>, Seq<char>))
    requires
        p.behind((q.created_at, q.id)),
        q.behind(cursor),
    ensures
        p.behind(cursor),
{
    if text::lex_lt(p.created_at, q.created_at) && text::lex_lt(q.created_at, cursor.0) {
        text::lemma_lex_transitive(p.created_at, q.created_at, cursor.0);
    }
    if text::lex_lt(p.id, q.id) && text::lex_lt(q.id, cursor.1) {
        text::lemma_lex_transitive(p.id, q.id, cursor.1);
    }
}

/// Payments have distinct ids in any list of them.
proof fn lemma_list_distinct(
    v: DbView,
    p: spec_fn(PaymentView) -> bool,
    before: spec_fn(PaymentView, PaymentView) -> bool,
)
    requires
        v.inv(),
    ensures
        table::distinct(v.payments, id_of()),
        table::distinct(v.payments.filter(p), id_of()),
        table::distinct(table::sorted(v.payments.filter(p), before), id_of()),
{
    table::lemma_filter_distinct(v.payments, p, id_of());
    table::lemma_sorted_distinct(v.payments.filter(p), before, id_of());
}

/// A merchant's list holds exactly the payments that belong in it, each once,
/// every payment behind those that are newer.
pub proof fn law_merchant_list(
    v: DbView,
    merchant_id: Seq<char>,
    status: Option<Seq<char>>,
    cursor: Option<(Seq<char>, Seq<char>)>,
)
    requires
        v.inv(),
    ensures
        ({
            let list = v.merchant_list(merchant_id, status, cursor);
            &&& forall|p: PaymentView|
                #[trigger] list.contains(p) <==> v.payments.contains(p) && p.listed(
                    merchant_id,
                    status,
                    cursor,
                )
            &&& forall|i: int, j: int|
                0 <= i < j < list.len() ==> (#[trigger] list[j]).behind(
                    ((#[trigger] list[i]).created_at, list[i].id),
                ) && list[i].id != list[j].id
        }),
{
    let p = |p: PaymentView| p.listed(merchant_id, status, cursor);
    let before = payments::newest_first();
    let hits = v.payments.filter(p);
    let list = v.merchant_list(merchant_id, status, cursor);
    table::lemma_sorted_same_rows(hits, before);
    assert forall|x: PaymentView| #[trigger] list.contains(x) <==> v.payments.contains(x)
        && x.listed(merchant_id, status, cursor) by {
        table::lemma_filter_members(v.payments, p, x);
    }
    lemma_newest_first_is_order();
    table::lemma_sorted_in_order(hits, before);
    lemma_list_distinct(v, p, before);
    assert forall|i: int, j: int| 0 <= i < j < list.len() implies (#[trigger] list[j]).behind(
        ((#[trigger] list[i]).created_at, list[i].id),
    ) && list[i].id != list[j].id by {
        assert(!before(list[j], list[i]));
        assert(id_of()(list[i]) != id_of()(list[j]));
        text::lemma_lex_total(list[i].created_at, list[j].created_at);
        text::lemma_lex_total(list[i].id, list[j].id);
    }
}

/// A cursor resumes: behind the payment at position `k` of a list, the keyset
/// list holds exactly the rest of it, so that no payment is skipped and none is
/// repeated. The cursor is taken from the payment as it is handed out; its
/// stored creation time is in normal form.
pub proof fn law_cursor_resumes(
    v: DbView,
    merchant_id: Seq<char>,
    status: Option<Seq<char>>,
    cursor: Option<(Seq<char>, Seq<char>)>,
    k: int,
)
    requires
        v.inv(),
        0 <= k < v.merchant_list(merchant_id, status, cursor).len(),
        timestamp::normalized(v.merchant_list(merchant_id, status, cursor)[k].created_at)
            == v.merchant_list(merchant_id, status, cursor)[k].created_at,
    ensures
        ({
            let list = v.merchant_list(merchant_id, status, cursor);
            let last = payments::handed_out(list)[k];
            v.merchant_list(merchant_id, status, Some((last.created_at, last.id))) == list.skip(
                k + 1,
            )
        }),
{
    let list = v.merchant_list(merchant_id, status, cursor);
    let last = list[k];
    let c = (last.created_at, last.id);
    let p = |x: PaymentView| x.listed(merchant_id, status, cursor);
    let q = |x: PaymentView| x.behind(c);
    let r = |x: PaymentView| x.listed(merchant_id, status, Some(c));
    let before = payments::newest_first();
    law_merchant_list(v, merchant_id, status, cursor);
    assert(list.contains(last));
    assert forall|i: int| 0 <= i < v.payments.len() implies r(#[trigger] v.payments[i]) == (p(
        v.payments[i],
    ) && q(v.payments[i])) by {
        let x = v.payments[i];
        if q(x) && cursor is Some {
            lemma_behind_transitive(x, last, cursor->0);
        }
    }
    table::lemma_filter_twice(v.payments, p, q, r);
    lemma_newest_first_is_order();
    table::lemma_sorted_filter(v.payments.filter(p), before, q);
    assert forall|i: int| 0 <= i < list.len() implies q(#[trigger] list[i]) == (k + 1 <= i) by {
        if i < k {
            assert(list[k].behind((list[i].created_at, list[i].id)));
            assert(before(list[i], list[k]));
            assert(!before(list[k], list[i]));
        } else if i == k {
            text::lemma_lex_irreflexive(last.created_at);
            text::lemma_lex_irreflexive(last.id);
        } else {
            assert(list[i].behind((list[k].created_at, list[k].id)));
        }
    }
    table::lemma_filter_suffix(list, q, k + 1);
}

/// Offset pages and cursors agree: a cursor made from the last row of an offset
/// page resumes where the next offset page starts, so a page and what is behind
/// its cursor make up the list from the page's offset on. The stored creation
/// time of that row is in normal form.
pub proof fn law_offset_page_migrates_to_cursor(
    v: DbView,
    merchant_id: Seq<char>,
    status: Option<Seq<char>>,
    offset: int,
    limit: int,
)
    requires
        v.inv(),
        offset >= 0,
        limit >= 1,
        offset < v.merchant_list(merchant_id, status, None).len(),
        ({
            let list = v.merchant_list(merchant_id, status, None);
            let last = table::page(list, offset, limit).last();
            timestamp::normalized(last.created_at) == last.created_at
        }),
    ensures
        ({
            let list = v.merchant_list(merchant_id, status, None);
            let page = table::page(list, offset, limit);
            let last = payments::handed_out(page).last();
            let rest = v.merchant_list(merchant_id, status, Some((last.created_at, last.id)));
            &&& page.len() > 0
            &&& rest == table::page(list, offset + page.len(), -1)
            &&& page + rest == table::page(list, offset, -1)
        }),
{
    let list = v.merchant_list(merchant_id, status, None);
    let page = table::page(list, offset, limit);
    let k = offset + page.len() - 1;
    assert(page.last() == list[k]);
    law_cursor_resumes(v, merchant_id, status, None, k);
    assert(payments::handed_out(page).last() == payments::handed_out(list)[k]);
    assert(table::page(list, offset + page.len(), -1) =~= list.skip(k + 1));
    assert(page + list.skip(k + 1) =~= list.skip(offset));
}

/// A scan by cursors is stable under inserts: whatever payment is added between
/// two pages, those that were there stand behind a cursor as before, in the same
/// order.
pub proof fn law_cursor_is_stable_under_inserts(
    v: DbView,
    row: PaymentView,
    merchant_id: Seq<char>,
    status: Option<Seq<char>>,
    cursor: Option<(Seq<char>, Seq<char>)>,
)
    requires
        !v.has_payment(row.id),
    ensures
        (DbView { payments: v.payments.push(row), ..v }).merchant_list(
            merchant_id,
            status,
            cursor,
        ).filter(|p: PaymentView| p.id != row.id) == v.merchant_list(merchant_id, status, cursor),
{
    let p = |p: PaymentView| p.listed(merchant_id, status, cursor);
    let present = |p: PaymentView| p.id != row.id;
    let more = v.payments.push(row);
    lemma_newest_first_is_order();
    table::lemma_sorted_filter(more.filter(p), payments::newest_first(), present);
    reveal(Seq::filter);
    assert(more.drop_last() =~= v.payments);
    let hits = v.payments.filter(p);
    assert forall|i: int| 0 <= i < hits.len() implies present(#[trigger] hits[i]) == (i
        < hits.len()) by {
        table::lemma_filter_members(v.payments, p, hits[i]);
        assert(hits.contains(hits[i]));
        let j = choose|j: int| 0 <= j < v.payments.len() && v.payments[j] == hits[i];
        assert(v.payments[j].id != row.id);
    }
    table::lemma_filter_prefix(hits, present, hits.len() as int);
    assert(hits.take(hits.len() as int) =~= hits);
    if p(row) {
        assert(hits.push(row).drop_last() =~= hits);
    }
    assert(more.filter(p).filter(present) =~= hits);
}

/// The count is the length of the unlimited list.
pub proof fn law_count_is_list_length(v: DbView, merchant_id: Seq<char>, status: Option<Seq<char>>)
    ensures
        v.payments.filter(|p: PaymentView| p.listed(merchant_id, status, None)).len()
            == table::page(v.merchant_list(merchant_id, status, None), 0, -1).len(),
{
    let hits = v.payments.filter(|p: PaymentView| p.listed(merchant_id, status, None));
    table::lemma_sorted_same_rows(hits, payments::newest_first());
}

/// A payment that was created is fetched as it was returned, and every other
/// payment is fetched as before.
pub proof fn law_created_payment_is_fetched(v: DbView, row: PaymentView, other: Seq<char>)
    requires
        !v.has_payment(row.id),
        row.normalized() == row,
        other != row.id,
    ensures
        (DbView { payments: v.payments.push(row), ..v }).payment(row.id) == Some(row),
        (DbView { payments: v.payments.push(row), ..v }).payment(other) == v.payment(other),
{
    reveal(Seq::filter);
    let p = |p: PaymentView| p.id == row.id;
    let q = |p: PaymentView| p.id == other;
    assert(v.payments.push(row).drop_last() =~= v.payments);
    table::lemma_filter_nonempty(v.payments, p);
    if v.payments.filter(p).len() > 0 {
        let i = choose|i: int| 0 <= i < v.payments.len() && p(#[trigger] v.payments[i]);
        assert(v.payments[i].id == row.id);
    }
}

/// Amounts that stand for the same stroops are stored alike, and the stored
/// amount stands for those stroops.
pub proof fn law_amount_is_canonical(a: NewPayment, b: NewPayment, now: int)
    requires
        money::stroops_of(a.amount@) is Some,
        money::stroops_of(a.amount@) == money::stroops_of(b.amount@),
    ensures
        ({
            let stroops = money::stroops_of(a.amount@)->0;
            &&& payments::new_payment_row(a, stroops, now).amount == payments::new_payment_row(
                b,
                money::stroops_of(b.amount@)->0,
                now,
            ).amount
            &&& money::stroops_of(payments::new_payment_row(a, stroops, now).amount)
                == money::stroops_of(a.amount@)
        }),
{
    money::lemma_amount_reads_back(money::stroops_of(a.amount@)->0);
}

/// A new intent is watched until its expiry and overdue from then on.
pub proof fn law_intent_lives_for_its_ttl(new: NewPayment, stroops: int, now: int, at: int)
    requires
        timestamp::in_range(now + new.ttl_secs),
        timestamp::in_range(at),
    ensures
        payments::new_payment_row(new, stroops, now).watchable(),
        payments::new_payment_row(new, stroops, now).overdue(at) <==> now + new.ttl_secs <= at,
{
    timestamp::lemma_text_order_is_time_order(at, now + new.ttl_secs);
}

/// Whether a status ends a payment: no further transition leaves it.
pub open spec fn is_final(status: Seq<char>) -> bool {
    status != "pending"@ && status != "underpaid"@
}

/// The statuses that end a payment, among those that are used.
pub proof fn law_completed_and_expired_are_final()
    ensures
        is_final("completed"@),
        is_final("expired"@),
        !is_final("pending"@),
        !is_final("underpaid"@),
{
    reveal_strlit("completed");
    reveal_strlit("expired");
    reveal_strlit("pending");
    reveal_strlit("underpaid");
    assert("completed"@.len() == 9);
    assert("expired"@[0] == 'e');
    assert("pending"@[0] == 'p');
    assert("underpaid"@[0] == 'u');
    assert("completed"@[0] == 'c');
}

/// A payment settles once: behind a transition to a final status every further
/// transition of that payment is refused and changes nothing.
pub proof fn law_settles_once(
    v: DbView,
    id: Seq<char>,
    status: Seq<char>,
    tx_hash: Option<Seq<char>>,
    paid_amount: Option<Seq<char>>,
    now: int,
    later_status: Seq<char>,
    later_tx_hash: Option<Seq<char>>,
    later_paid_amount: Option<Seq<char>>,
    later: int,
)
    requires
        is_final(status),
    ensures
        ({
            let after = v.after_settlement(id, status, tx_hash, paid_amount, now);
            &&& !after.can_settle(id)
            &&& after.after_settlement(
                id,
                later_status,
                later_tx_hash,
                later_paid_amount,
                later,
            ) == after
        }),
{
    let after = v.after_settlement(id, status, tx_hash, paid_amount, now);
    assert forall|i: int| 0 <= i < after.payments.len() && (#[trigger] after.payments[i]).id
        == id implies !after.payments[i].watchable() by {
        let p = v.payments[i];
        if p.id == id && p.watchable() {
            assert(after.payments[i] == p.settled(status, tx_hash, paid_amount, now));
        } else {
            assert(after.payments[i] == p);
        }
    }
    let again = after.after_settlement(id, later_status, later_tx_hash, later_paid_amount, later);
    assert(again.payments =~= after.payments);
}

/// A payment that cannot settle is left as it is, and settling one payment
/// leaves every other as it is.
pub proof fn law_settlement_touches_one_payment(
    v: DbView,
    id: Seq<char>,
    status: Seq<char>,
    tx_hash: Option<Seq<char>>,
    paid_amount: Option<Seq<char>>,
    now: int,
    i: int,
)
    requires
        0 <= i < v.payments.len(),
        v.payments[i].id != id || !v.can_settle(id),
    ensures
        v.after_settlement(id, status, tx_hash, paid_amount, now).payments[i] == v.payments[i],
{
}

/// An underpaid payment stays open for a top-up: behind a transition to
/// `underpaid` the payment can settle again, and a hash or an amount that is not
/// given keeps what was stored.
pub proof fn law_underpaid_accepts_a_top_up(
    v: DbView,
    i: int,
    tx_hash: Option<Seq<char>>,
    paid_amount: Option<Seq<char>>,
    now: int,
)
    requires
        0 <= i < v.payments.len(),
        v.payments[i].watchable(),
    ensures
        ({
            let id = v.payments[i].id;
            let after = v.after_settlement(id, "underpaid"@, tx_hash, paid_amount, now);
            &&& after.can_settle(id)
            &&& tx_hash is None ==> after.payments[i].tx_hash == v.payments[i].tx_hash
            &&& paid_amount is None ==> after.payments[i].paid_amount == v.payments[i].paid_amount
        }),
{
    let id = v.payments[i].id;
    let after = v.after_settlement(id, "underpaid"@, tx_hash, paid_amount, now);
    assert(after.payments[i] == v.payments[i].settled("underpaid"@, tx_hash, paid_amount, now));
    assert(after.payments[i].id == id && after.payments[i].watchable());
}

/// A sweep takes only watchable payments whose time has elapsed.
pub proof fn lemma_swept_is_overdue(v: DbView, batch: int, now: int, i: int)
    requires
        v.inv(),
        0 <= i < v.payments.len(),
        v.swept(batch, now, v.payments[i].id),
    ensures
        v.payments[i].watchable(),
        v.payments[i].overdue(now),
{
    let list = v.overdue_list(now);
    let page = table::page(list, 0, batch);
    let k = choose|k: int| 0 <= k < page.len() && (#[trigger] page[k]).id == v.payments[i].id;
    lemma_overdue_member(v, now, page[k]);
    assert(list[k] == page[k]);
    assert(list.contains(list[k]));
    let j = choose|j: int| 0 <= j < v.payments.len() && v.payments[j] == page[k];
    assert(v.payments[j].id == v.payments[i].id);
    assert(i == j);
}

/// What the overdue list holds.
pub proof fn lemma_overdue_member(v: DbView, now: int, p: PaymentView)
    ensures
        v.overdue_list(now).contains(p) <==> v.payments.contains(p) && p.watchable() && p.overdue(
            now,
        ),
{
    let q = |p: PaymentView| p.watchable() && p.overdue(now);
    table::lemma_sorted_same_rows(v.payments.filter(q), payments::oldest_first());
    table::lemma_filter_members(v.payments, q, p);
}

/// A settled payment is never swept, and a swept payment never settles: whichever
/// comes first wins, so a payment is never reported twice.
pub proof fn law_sweep_and_settlement_exclude_each_other(
    v: DbView,
    i: int,
    batch: int,
    now: int,
)
    requires
        v.inv(),
        0 <= i < v.payments.len(),
    ensures
        !v.payments[i].watchable() ==> v.after_sweep(batch, now).payments[i] == v.payments[i],
        v.swept(batch, now, v.payments[i].id) ==> !v.after_sweep(batch, now).can_settle(
            v.payments[i].id,
        ),
{
    let id = v.payments[i].id;
    if v.swept(batch, now, id) {
        lemma_swept_is_overdue(v, batch, now, i);
        let after = v.after_sweep(batch, now);
        law_completed_and_expired_are_final();
        assert forall|j: int| 0 <= j < after.payments.len() && (#[trigger] after.payments[j]).id
            == id implies !after.payments[j].watchable() by {
            assert(v.payments[j].id == id);
            assert(after.payments[j] == v.payments[j].expired(now));
        }
    }
}

/// An overdue intent is never polled: the watched list and the overdue list have
/// no payment in common, and together hold every watchable payment.
pub proof fn law_overdue_is_never_polled(v: DbView, now: int, p: PaymentView)
    ensures
        v.pending_list(now).contains(p) ==> !v.overdue_list(now).contains(p) && !p.overdue(now),
        v.payments.contains(p) && p.watchable() ==> v.pending_list(now).contains(p)
            || v.overdue_list(now).contains(p),
{
    let q = |p: PaymentView| p.watchable() && !p.overdue(now);
    table::lemma_sorted_same_rows(v.payments.filter(q), payments::oldest_first());
    table::lemma_filter_members(v.payments, q, p);
    lemma_overdue_member(v, now, p);
}

/// The payments that a sweep takes are the oldest of the overdue ones.
proof fn lemma_sweep_takes_the_page(v: DbView, batch: int, now: int)
    requires
        v.inv(),
    ensures
        ({
            let swept = |p: PaymentView| v.swept(batch, now, p.id);
            let list = v.overdue_list(now);
            let page = table::page(list, 0, batch);
            &&& v.payments.filter(swept).len() == page.len()
            &&& table::sorted(v.payments.filter(swept), payments::oldest_first()) == page
        }),
{
    let due = |p: PaymentView| p.watchable() && p.overdue(now);
    let swept = |p: PaymentView| v.swept(batch, now, p.id);
    let before = payments::oldest_first();
    let list = v.overdue_list(now);
    let page = table::page(list, 0, batch);
    assert forall|i: int| 0 <= i < v.payments.len() implies swept(#[trigger] v.payments[i]) == (due(
        v.payments[i],
    ) && swept(v.payments[i])) by {
        if swept(v.payments[i]) {
            lemma_swept_is_overdue(v, batch, now, i);
        }
    }
    table::lemma_filter_twice(v.payments, due, swept, swept);
    lemma_oldest_first_is_order();
    table::lemma_sorted_filter(v.payments.filter(due), before, swept);
    lemma_list_distinct(v, due, before);
    assert forall|i: int| 0 <= i < list.len() implies swept(#[trigger] list[i]) == (i
        < page.len()) by {
        if i < page.len() {
            assert(page[i].id == list[i].id);
        } else if swept(list[i]) {
            let k = choose|k: int| 0 <= k < page.len() && (#[trigger] page[k]).id == list[i].id;
            assert(id_of()(list[k]) != id_of()(list[i]));
        }
    }
    table::lemma_filter_prefix(list, swept, page.len() as int);
    assert(list.take(page.len() as int) =~= page);
    table::lemma_sorted_same_rows(v.payments.filter(swept), before);
}

/// A sweep takes at most `batch` payments, as many as are overdue up to that,
/// and a backlog drains: what is left overdue is what was not taken.
pub proof fn law_backlog_drains(v: DbView, batch: int, now: int)
    requires
        v.inv(),
        batch >= 0,
    ensures
        ({
            let overdue = v.overdue_list(now).len();
            let taken = v.sweep_result(batch, now).len();
            &&& taken == (if batch < overdue {
                batch
            } else {
                overdue as int
            })
            &&& v.after_sweep(batch, now).overdue_list(now).len() == overdue - taken
        }),
{
    let due = |p: PaymentView| p.watchable() && p.overdue(now);
    let swept = |p: PaymentView| v.swept(batch, now, p.id);
    let before = payments::oldest_first();
    let after = v.after_sweep(batch, now);
    lemma_sweep_takes_the_page(v, batch, now);
    table::lemma_sorted_same_rows(v.payments.filter(due), before);
    table::lemma_sorted_same_rows(after.payments.filter(due), before);
    table::lemma_filter_split(v.payments, due, swept);
    let both = |p: PaymentView| due(p) && swept(p);
    let left = |p: PaymentView| due(p) && !swept(p);
    assert forall|i: int| 0 <= i < v.payments.len() implies swept(#[trigger] v.payments[i]) == both(
        v.payments[i],
    ) by {
        if swept(v.payments[i]) {
            lemma_swept_is_overdue(v, batch, now, i);
        }
    }
    table::lemma_filter_same(v.payments, swept, both);
    law_completed_and_expired_are_final();
    lemma_filter_after_sweep(v.payments, after.payments, due, left, swept);
}

/// Rows that were changed so that they no longer satisfy a predicate drop out of
/// its filter.
proof fn lemma_filter_after_sweep(
    before: Seq<PaymentView>,
    after: Seq<PaymentView>,
    due: spec_fn(PaymentView) -> bool,
    left: spec_fn(PaymentView) -> bool,
    swept: spec_fn(PaymentView) -> bool,
)
    requires
        after.len() == before.len(),
        forall|i: int|
            0 <= i < before.len() ==> (if swept(#[trigger] before[i]) {
                !due(after[i])
            } else {
                after[i] == before[i]
            }),
        forall|p: PaymentView| #[trigger] left(p) == (due(p) && !swept(p)),
    ensures
        after.filter(due) == before.filter(left),
    decreases before.len(),
{
    reveal(Seq::filter);
    if before.len() > 0 {
        let b = before.drop_last();
        let a = after.drop_last();
        assert forall|i: int| 0 <= i < b.len() implies (if swept(#[trigger] b[i]) {
            !due(a[i])
        } else {
            a[i] == b[i]
        }) by {
            assert(b[i] == before[i]);
        }
        lemma_filter_after_sweep(b, a, due, left, swept);
        let n = before.len() - 1;
        assert(if swept(before[n]) {
            !due(after[n])
        } else {
            after[n] == before[n]
        });
    }
}

/// A sweep without limit, or with one that the backlog does not exceed, leaves
/// nothing overdue.
pub proof fn law_full_sweep_leaves_nothing_overdue(v: DbView, batch: int, now: int)
    requires
        v.inv(),
        batch < 0 || batch >= v.overdue_list(now).len(),
    ensures
        v.after_sweep(batch, now).overdue_list(now).len() == 0,
{
    let n = v.overdue_list(now).len() as int;
    law_backlog_drains(v, n, now);
    assert(table::page(v.overdue_list(now), 0, batch) == table::page(v.overdue_list(now), 0, n));
    assert forall|id: Seq<char>| #[trigger] v.swept(batch, now, id) == v.swept(n, now, id) by {}
    assert(v.after_sweep(batch, now).payments =~= v.after_sweep(n, now).payments);
}

} // verus!

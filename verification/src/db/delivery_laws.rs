//! What holds of webhook deliveries whatever their operations are called with.
use vstd::prelude::*;

use crate::db::deliveries;
use crate::db::deliveries::RedrivePolicy;
use crate::db::rows::WebhookDeliveryView;
use crate::db::DbView;
use crate::reading;
use crate::table;
use crate::text;
use crate::timestamp;

verus! {

/// A delivery that was created is fetched as it was returned.
pub proof fn law_created_delivery_is_fetched(v: DbView, row: WebhookDeliveryView)
    requires
        !deliveries::holds_id(v.webhook_deliveries, row.id),
        row.normalized() == row,
    ensures
        (DbView { webhook_deliveries: v.webhook_deliveries.push(row), ..v }).delivery(row.id)
            == Some(row),
{
    reveal(Seq::filter);
    let all = v.webhook_deliveries;
    let p = |d: WebhookDeliveryView| d.id == row.id;
    assert(all.push(row).drop_last() =~= all);
    table::lemma_filter_nonempty(all, p);
    if all.filter(p).len() > 0 {
        let i = choose|i: int| 0 <= i < all.len() && p(#[trigger] all[i]);
        assert(all[i].id == row.id);
    }
}

/// The deliveries of a payment are listed newest first, each of them and no
/// other.
pub proof fn law_deliveries_are_listed_newest_first(v: DbView, payment_id: Seq<char>)
    ensures
        ({
            let listed = table::sorted(
                v.webhook_deliveries.filter(
                    |d: WebhookDeliveryView| d.payment_id == payment_id,
                ),
                deliveries::newest_delivery_first(),
            );
            &&& v.deliveries_of(payment_id) == deliveries::handed_out(listed)
            &&& forall|i: int, j: int|
                0 <= i < j < listed.len() ==> !text::lex_lt(
                    (#[trigger] listed[i]).created_at,
                    (#[trigger] listed[j]).created_at,
                )
            &&& forall|d: WebhookDeliveryView| #[trigger]
                listed.contains(d) <==> v.webhook_deliveries.contains(d) && d.payment_id
                    == payment_id
        }),
{
    let p = |d: WebhookDeliveryView| d.payment_id == payment_id;
    let before = deliveries::newest_delivery_first();
    let rows = v.webhook_deliveries.filter(p);
    let listed = table::sorted(rows, before);
    lemma_newest_is_order();
    table::lemma_sorted_in_order(rows, before);
    table::lemma_sorted_same_rows(rows, before);
    assert forall|i: int, j: int| 0 <= i < j < listed.len() implies !text::lex_lt(
        (#[trigger] listed[i]).created_at,
        (#[trigger] listed[j]).created_at,
    ) by {
        assert(!before(listed[j], listed[i]));
    }
    assert forall|d: WebhookDeliveryView| #[trigger]
        listed.contains(d) <==> v.webhook_deliveries.contains(d) && d.payment_id == payment_id by {
        table::lemma_filter_members(v.webhook_deliveries, p, d);
    }
}

/// Newest first is an order.
proof fn lemma_newest_is_order()
    ensures
        table::is_order(deliveries::newest_delivery_first()),
{
    let before = deliveries::newest_delivery_first();
    assert forall|a: WebhookDeliveryView, b: WebhookDeliveryView| #[trigger]
        before(a, b) implies !before(b, a) by {
        lemma_lex_asymmetric(b.created_at, a.created_at);
    }
    assert forall|a: WebhookDeliveryView, b: WebhookDeliveryView, c: WebhookDeliveryView|
        !(#[trigger] before(a, b)) && !(#[trigger] before(b, c)) implies !before(a, c) by {
        lemma_lex_negatively_transitive(c.created_at, b.created_at, a.created_at);
    }
}

/// The order of texts is asymmetric.
proof fn lemma_lex_asymmetric(a: Seq<char>, b: Seq<char>)
    requires
        text::lex_lt(a, b),
    ensures
        !text::lex_lt(b, a),
{
    if text::lex_lt(b, a) {
        text::lemma_lex_transitive(a, b, a);
        text::lemma_lex_irreflexive(a);
    }
}

/// A text that is not below a second, which is not below a third, is not below
/// the third.
proof fn lemma_lex_negatively_transitive(a: Seq<char>, b: Seq<char>, c: Seq<char>)
    requires
        !text::lex_lt(a, b),
        !text::lex_lt(b, c),
    ensures
        !text::lex_lt(a, c),
{
    if text::lex_lt(a, c) {
        text::lemma_lex_total(a, b);
        if a != b {
            text::lemma_lex_transitive(b, a, c);
        }
    }
}

/// Every attempt is recorded: the delivery has its status, one attempt more and
/// the time of it; no other delivery changes.
pub proof fn law_attempt_is_recorded(
    v: DbView,
    id: Seq<char>,
    status: Seq<char>,
    now: int,
    i: int,
)
    requires
        0 <= i < v.webhook_deliveries.len(),
    ensures
        ({
            let before = v.webhook_deliveries[i];
            let after = v.after_attempt(id, status, now).webhook_deliveries[i];
            if before.id == id {
                after == (WebhookDeliveryView {
                    status,
                    attempts: before.attempts + 1,
                    last_attempt: Some(timestamp::timestamp_text(now)),
                    ..before
                })
            } else {
                after == before
            }
        }),
{
}

/// The backoff doubles with every attempt behind the first.
pub proof fn law_backoff_doubles(policy: RedrivePolicy, attempts: int)
    requires
        attempts >= 1,
    ensures
        policy.growth(1) == policy.backoff_initial,
        policy.growth(attempts + 1) == 2 * policy.growth(attempts),
{
    let x = policy.backoff_initial as int;
    let y = deliveries::pow2(attempts - 1);
    assert(deliveries::pow2(attempts) == 2 * y);
    assert(x * (2 * y) == 2 * (x * y)) by (nonlinear_arith);
    assert(deliveries::pow2(0) == 1);
}

/// A delivery waits for the grace window at least and, where the ceiling of the
/// backoff is not below that, for the ceiling at most.
pub proof fn law_wait_is_bounded(policy: RedrivePolicy, attempts: int)
    ensures
        policy.wait(attempts) >= policy.grace_secs,
        policy.backoff_max >= policy.grace_secs ==> policy.wait(attempts) <= policy.backoff_max,
        policy.backoff_max < policy.grace_secs ==> policy.wait(attempts) == policy.grace_secs,
{
}

/// The more often a delivery was attempted, the longer it waits.
pub proof fn law_wait_grows(policy: RedrivePolicy, fewer: int, more: int)
    requires
        policy.backoff_initial >= 0,
        fewer <= more,
    ensures
        policy.wait(fewer) <= policy.wait(more),
    decreases more - fewer,
{
    if fewer < more {
        law_wait_grows(policy, fewer, more - 1);
        let x = policy.backoff_initial as int;
        if more == 1 {
            assert(deliveries::pow2(0) == 1);
        } else if more > 1 {
            law_backoff_doubles(policy, more - 1);
            lemma_pow2_positive(more - 2);
            let y = deliveries::pow2(more - 2);
            assert(x * y >= 0) by (nonlinear_arith)
                requires
                    x >= 0,
                    y > 0,
            ;
        }
    }
}

/// Powers of two are positive.
proof fn lemma_pow2_positive(k: int)
    ensures
        deliveries::pow2(k) > 0,
    decreases k,
{
    if k > 0 {
        lemma_pow2_positive(k - 1);
    }
}

/// An initial backoff of zero disables the growth.
pub proof fn law_zero_backoff_does_not_grow(policy: RedrivePolicy, attempts: int)
    requires
        policy.backoff_initial == 0,
    ensures
        policy.wait(attempts) == policy.wait(0),
{
    let y = deliveries::pow2(attempts - 1);
    assert(0 * y == 0) by (nonlinear_arith);
}

/// The random delay lies between zero and `jitter_secs`.
pub proof fn law_jitter_is_bounded(policy: RedrivePolicy, draw: int)
    requires
        policy.jitter_secs >= 0,
    ensures
        policy.jitter(draw) matches Some(delay) && 0 <= delay <= policy.jitter_secs,
{
}

/// The redrive list holds exactly the eligible deliveries, longest idle first.
pub proof fn law_redrive_list(
    v: DbView,
    policy: RedrivePolicy,
    draws: Seq<u64>,
    now: int,
    d: WebhookDeliveryView,
)
    ensures
        v.redrive_list(policy, draws, now).contains(d) <==> exists|i: int|
            0 <= i < v.webhook_deliveries.len() && #[trigger] v.webhook_deliveries[i] == d
                && policy.eligible(d, deliveries::draw_at(draws, i), now),
        table::in_order(v.redrive_list(policy, draws, now), deliveries::stalest_first()),
{
    let s = v.webhook_deliveries;
    let rows = deliveries::eligible_rows(s, policy, draws, now);
    lemma_stalest_is_order();
    table::lemma_sorted_in_order(rows, deliveries::stalest_first());
    table::lemma_sorted_same_rows(rows, deliveries::stalest_first());
    let pairs = Seq::new(s.len(), |i: int| (s[i], deliveries::draw_at(draws, i)));
    let p = |x: (WebhookDeliveryView, int)| policy.eligible(x.0, x.1, now);
    let hits = pairs.filter(p);
    if rows.contains(d) {
        let k = choose|k: int| 0 <= k < rows.len() && rows[k] == d;
        table::lemma_filter_members(pairs, p, hits[k]);
        assert(hits.contains(hits[k]));
        let i = choose|i: int| 0 <= i < pairs.len() && pairs[i] == hits[k];
        assert(s[i] == d);
    }
    if exists|i: int|
        0 <= i < s.len() && #[trigger] s[i] == d && policy.eligible(
            d,
            deliveries::draw_at(draws, i),
            now,
        ) {
        let i = choose|i: int|
            0 <= i < s.len() && #[trigger] s[i] == d && policy.eligible(
                d,
                deliveries::draw_at(draws, i),
                now,
            );
        table::lemma_filter_members(pairs, p, pairs[i]);
        assert(pairs.contains(pairs[i]));
        let k = choose|k: int| 0 <= k < hits.len() && hits[k] == pairs[i];
        assert(rows[k] == d);
    }
}

/// Longest idle first is an order.
proof fn lemma_stalest_is_order()
    ensures
        table::is_order(deliveries::stalest_first()),
{
    let before = deliveries::stalest_first();
    assert forall|a: WebhookDeliveryView, b: WebhookDeliveryView| #[trigger]
        before(a, b) implies !before(b, a) by {
        match (a.last_attempt, b.last_attempt) {
            (Some(x), Some(y)) => {
                lemma_lex_asymmetric(x, y);
            },
            _ => {},
        }
    }
    assert forall|a: WebhookDeliveryView, b: WebhookDeliveryView, c: WebhookDeliveryView|
        !(#[trigger] before(a, b)) && !(#[trigger] before(b, c)) implies !before(a, c) by {
        match (a.last_attempt, b.last_attempt, c.last_attempt) {
            (Some(x), Some(y), Some(z)) => {
                lemma_lex_negatively_transitive(x, y, z);
            },
            _ => {},
        }
    }
}

/// The statuses of deliveries are distinct.
proof fn lemma_statuses_differ()
    ensures
        "pending"@ != "delivered"@,
        "pending"@ != "failed"@,
        "delivered"@ != "failed"@,
{
    reveal_strlit("delivered");
    reveal_strlit("pending");
    reveal_strlit("failed");
    assert("delivered"@.len() == 9);
    assert("pending"@.len() == 7);
    assert("failed"@.len() == 6);
}

/// A delivery that was made, or that has no attempts left, is never tried again.
pub proof fn law_settled_delivery_is_not_redriven(
    v: DbView,
    policy: RedrivePolicy,
    draws: Seq<u64>,
    now: int,
    d: WebhookDeliveryView,
)
    requires
        d.status == "delivered"@ || d.attempts >= policy.max_attempts,
    ensures
        !v.redrive_list(policy, draws, now).contains(d),
{
    law_redrive_list(v, policy, draws, now, d);
    lemma_statuses_differ();
}

/// The redrive never races an attempt: a delivery that was attempted is left
/// alone until the grace window has passed, whatever was drawn.
pub proof fn law_redrive_never_races_an_attempt(
    policy: RedrivePolicy,
    d: WebhookDeliveryView,
    attempted: int,
    draw: int,
    now: int,
)
    requires
        timestamp::in_range(attempted),
        d.last_attempt == Some(timestamp::timestamp_text(attempted)),
        now - attempted < policy.grace_secs,
    ensures
        !policy.eligible(d, draw, now),
{
    reading::lemma_text_reads_back(attempted, now);
}

/// A delivery that failed is tried again once its backoff and the largest random
/// delay have passed, as long as it has attempts left.
pub proof fn law_failed_delivery_is_redriven(
    policy: RedrivePolicy,
    d: WebhookDeliveryView,
    attempted: int,
    draw: int,
    now: int,
)
    requires
        policy.jitter_secs >= 0,
        timestamp::in_range(attempted),
        d.status == "failed"@ || d.status == "pending"@,
        d.attempts < policy.max_attempts,
        d.last_attempt == Some(timestamp::timestamp_text(attempted)),
        now - attempted >= policy.wait(d.attempts) + policy.jitter_secs,
    ensures
        policy.eligible(d, draw, now),
{
    reading::lemma_text_reads_back(attempted, now);
}

/// A delivery that was never attempted is gated by the grace window alone.
pub proof fn law_fresh_delivery_waits_for_the_grace_window(
    policy: RedrivePolicy,
    d: WebhookDeliveryView,
    created: int,
    draw: int,
    now: int,
)
    requires
        timestamp::in_range(created),
        d.status == "pending"@,
        d.attempts < policy.max_attempts,
        d.last_attempt is None,
        d.created_at == timestamp::timestamp_text(created),
    ensures
        policy.eligible(d, draw, now) <==> now - created >= policy.grace_secs,
{
    reading::lemma_text_reads_back(created, now);
}

/// Retention spares a delivery that is pending, acknowledged or young.
pub proof fn law_retention_spares(
    v: DbView,
    retention_days: int,
    batch_size: int,
    now: int,
    i: int,
)
    requires
        v.inv(),
        0 <= i < v.webhook_deliveries.len(),
        v.webhook_deliveries[i].status == "pending"@
            || v.webhook_deliveries[i].acknowledged_at is Some || !reading::older_than(
            v.webhook_deliveries[i].created_at,
            retention_days,
            now,
        ),
    ensures
        v.after_delivery_pruning(retention_days, batch_size, now).webhook_deliveries.contains(
            v.webhook_deliveries[i],
        ),
{
    lemma_statuses_differ();
    let all = v.webhook_deliveries;
    let kept = lemma_retention(v, retention_days, batch_size, now);
    table::lemma_filter_members(all, kept, all[i]);
    assert(all.contains(all[i]));
}

/// Retention removes as many deliveries as it may, up to `batch_size`, and leaves
/// the rest of these: a backlog drains over several prunings.
pub proof fn law_delivery_pruning_is_bounded(
    v: DbView,
    retention_days: int,
    batch_size: int,
    now: int,
)
    requires
        v.inv(),
    ensures
        v.webhook_deliveries.len() - v.after_delivery_pruning(
            retention_days,
            batch_size,
            now,
        ).webhook_deliveries.len() == v.deliveries_to_prune(retention_days, batch_size, now).len(),
        batch_size >= 0 ==> v.deliveries_to_prune(retention_days, batch_size, now).len()
            <= batch_size,
        v.after_delivery_pruning(retention_days, batch_size, now).webhook_deliveries.filter(
            |d: WebhookDeliveryView| d.prunable(retention_days, now),
        ) == v.webhook_deliveries.filter(
            |d: WebhookDeliveryView| d.prunable(retention_days, now),
        ).skip(v.deliveries_to_prune(retention_days, batch_size, now).len() as int),
{
    lemma_retention(v, retention_days, batch_size, now);
}

/// What retention keeps.
pub proof fn lemma_retention(v: DbView, retention_days: int, batch_size: int, now: int) -> (kept:
    spec_fn(WebhookDeliveryView) -> bool)
    requires
        v.inv(),
    ensures
        ({
            let all = v.webhook_deliveries;
            let p = |d: WebhookDeliveryView| d.prunable(retention_days, now);
            let pruned = v.deliveries_to_prune(retention_days, batch_size, now);
            let after = v.after_delivery_pruning(
                retention_days,
                batch_size,
                now,
            ).webhook_deliveries;
            &&& after == all.filter(kept)
            &&& all.len() - after.len() == pruned.len()
            &&& after.filter(p) == all.filter(p).skip(pruned.len() as int)
            &&& forall|i: int|
                0 <= i < all.len() && !kept(#[trigger] all[i]) ==> all[i].prunable(
                    retention_days,
                    now,
                )
        }),
{
    let all = v.webhook_deliveries;
    let p = |d: WebhookDeliveryView| d.prunable(retention_days, now);
    let pruned = v.deliveries_to_prune(retention_days, batch_size, now);
    let kept = |d: WebhookDeliveryView| !deliveries::holds_id(pruned, d.id);
    let key = |d: WebhookDeliveryView| d.id;
    assert(table::distinct(all, key));
    assert forall|x: WebhookDeliveryView| #[trigger]
        kept(x) == !(exists|j: int|
            0 <= j < pruned.len() && key(#[trigger] pruned[j]) == key(x)) by {
        if deliveries::holds_id(pruned, x.id) {
            let j = choose|j: int| 0 <= j < pruned.len() && (#[trigger] pruned[j]).id == x.id;
            assert(key(pruned[j]) == key(x));
        }
        if exists|j: int| 0 <= j < pruned.len() && key(#[trigger] pruned[j]) == key(x) {
            let j = choose|j: int| 0 <= j < pruned.len() && key(#[trigger] pruned[j]) == key(x);
            assert(pruned[j].id == x.id);
        }
    }
    table::lemma_pruned(all, p, batch_size, key, kept);
    kept
}

/// A delivery that was acknowledged is never removed: it is kept through any
/// pruning that follows.
pub proof fn law_acknowledged_delivery_is_kept(
    v: DbView,
    ids: Seq<String>,
    now: int,
    retention_days: int,
    batch_size: int,
    later: int,
    i: int,
)
    requires
        v.inv(),
        0 <= i < v.webhook_deliveries.len(),
        deliveries::lists_id(ids, v.webhook_deliveries[i].id),
    ensures
        ({
            let acknowledged = v.after_acknowledgement(ids, now);
            let d = acknowledged.webhook_deliveries[i];
            &&& d.acknowledged_at is Some
            &&& acknowledged.after_delivery_pruning(
                retention_days,
                batch_size,
                later,
            ).webhook_deliveries.contains(d)
        }),
{
    let acknowledged = v.after_acknowledgement(ids, now);
    deliveries::lemma_same_delivery_ids_keep_inv(v, acknowledged);
    law_retention_spares(acknowledged, retention_days, batch_size, later, i);
}

/// A delivery is acknowledged once: acknowledging it again counts nothing and
/// changes nothing.
pub proof fn law_acknowledged_once(v: DbView, ids: Seq<String>, now: int, later: int)
    ensures
        v.after_acknowledgement(ids, now).unacknowledged(ids) == 0,
        v.after_acknowledgement(ids, now).after_acknowledgement(ids, later)
            == v.after_acknowledgement(ids, now),
{
    let after = v.after_acknowledgement(ids, now);
    let p = |d: WebhookDeliveryView|
        deliveries::lists_id(ids, d.id) && d.acknowledged_at is None;
    let stamp = timestamp::timestamp_text(now);
    assert forall|i: int| 0 <= i < after.webhook_deliveries.len() implies !p(
        #[trigger] after.webhook_deliveries[i],
    ) by {
        let d = v.webhook_deliveries[i];
        assert(after.webhook_deliveries[i] == if p(d) {
            WebhookDeliveryView { acknowledged_at: Some(stamp), ..d }
        } else {
            d
        });
    }
    table::lemma_filter_nonempty(after.webhook_deliveries, p);
    assert(after.after_acknowledgement(ids, later).webhook_deliveries
        =~= after.webhook_deliveries);
}

/// No ids acknowledge nothing.
pub proof fn law_no_ids_acknowledge_nothing(v: DbView, now: int)
    ensures
        v.unacknowledged(Seq::empty()) == 0,
        v.after_acknowledgement(Seq::empty(), now) == v,
{
    let p = |d: WebhookDeliveryView|
        deliveries::lists_id(Seq::empty(), d.id) && d.acknowledged_at is None;
    table::lemma_filter_nonempty(v.webhook_deliveries, p);
    assert(v.after_acknowledgement(Seq::empty(), now).webhook_deliveries
        =~= v.webhook_deliveries);
}

} // verus!

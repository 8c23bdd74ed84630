//! What the operations on webhook deliveries do, told by the fields of the stored
//! rows.
use vstd::arithmetic::power2;
use vstd::prelude::*;

use crate::db::deliveries;
use crate::db::deliveries::RedrivePolicy;
use crate::db::delivery_laws;
use crate::db::rows::WebhookDeliveryView;
use crate::db::DbView;
use crate::reading;
use crate::table;
use crate::text;
use crate::timestamp;

verus! {

/// The powers of two are those of arithmetic.
proof fn lemma_pow2_is_power_of_two(k: nat)
    ensures
        deliveries::pow2(k as int) == power2::pow2(k),
    decreases k,
{
    if k == 0 {
        power2::lemma2_to64();
    } else {
        lemma_pow2_is_power_of_two((k - 1) as nat);
        power2::lemma_pow2_unfold(k);
    }
}

/// The seconds to wait behind `attempts` attempts: `initial` times two to the power
/// of `attempts - 1`, at most the ceiling, and at least the grace window.
proof fn lemma_wait(policy: RedrivePolicy, attempts: int)
    requires
        attempts >= 1,
    ensures
        ({
            let grown = policy.backoff_initial * power2::pow2((attempts - 1) as nat);
            let capped = if grown <= policy.backoff_max {
                grown
            } else {
                policy.backoff_max as int
            };
            policy.wait(attempts) == (if policy.grace_secs >= capped {
                policy.grace_secs as int
            } else {
                capped
            })
        }),
{
    lemma_pow2_is_power_of_two((attempts - 1) as nat);
}

/// The backoff holds a delivery back: one that was attempted, whatever its status
/// and whatever was drawn, is not tried again before the backoff behind its
/// attempts has passed.
pub proof fn law_backoff_holds_a_delivery_back(
    policy: RedrivePolicy,
    d: WebhookDeliveryView,
    attempted: int,
    draw: int,
    now: int,
)
    requires
        policy.jitter_secs >= 0,
        d.attempts >= 1,
        timestamp::in_range(attempted),
        d.last_attempt == Some(timestamp::timestamp_text(attempted)),
        now - attempted < policy.grace_secs || (now - attempted < policy.backoff_max && now
            - attempted < policy.backoff_initial * power2::pow2((d.attempts - 1) as nat)),
    ensures
        !policy.eligible(d, draw, now),
{
    reading::lemma_text_reads_back(attempted, now);
    lemma_wait(policy, d.attempts);
}

/// When a delivery that was attempted is tried again: exactly when it is `pending`
/// or `failed`, has attempts left, and the backoff behind its attempts has passed,
/// with the random delay on top.
pub proof fn law_attempted_delivery_is_due(
    policy: RedrivePolicy,
    d: WebhookDeliveryView,
    attempted: int,
    draw: int,
    now: int,
)
    requires
        policy.jitter_secs >= 0,
        draw >= 0,
        d.attempts >= 1,
        timestamp::in_range(attempted),
        d.last_attempt == Some(timestamp::timestamp_text(attempted)),
    ensures
        policy.eligible(d, draw, now) <==> ({
            let grown = policy.backoff_initial * power2::pow2((d.attempts - 1) as nat);
            let delay = draw % (policy.jitter_secs + 1);
            &&& d.status == "pending"@ || d.status == "failed"@
            &&& d.attempts < policy.max_attempts
            &&& now - attempted >= policy.grace_secs + delay
            &&& now - attempted >= grown + delay || now - attempted >= policy.backoff_max + delay
        }),
{
    reading::lemma_text_reads_back(attempted, now);
    lemma_wait(policy, d.attempts);
}

/// When a delivery that was never attempted is tried: exactly when it is `pending`
/// or `failed`, has attempts left, and the grace window has passed since it was
/// created.
pub proof fn law_unattempted_delivery_is_due(
    policy: RedrivePolicy,
    d: WebhookDeliveryView,
    created: int,
    draw: int,
    now: int,
)
    requires
        d.last_attempt is None,
        timestamp::in_range(created),
        d.created_at == timestamp::timestamp_text(created),
    ensures
        policy.eligible(d, draw, now) <==> (d.status == "pending"@ || d.status == "failed"@)
            && d.attempts < policy.max_attempts && now - created >= policy.grace_secs,
{
    reading::lemma_text_reads_back(created, now);
}

/// A time that cannot be read: an attempt at such a time is never followed by
/// another, and a delivery created at such a time does not wait for its first.
pub proof fn law_unreadable_times(
    policy: RedrivePolicy,
    d: WebhookDeliveryView,
    draw: int,
    now: int,
)
    ensures
        d.last_attempt matches Some(t) && reading::unix_of_text(t, now) is None
            ==> !policy.eligible(d, draw, now),
        d.last_attempt is None && reading::unix_of_text(d.created_at, now) is None ==> (
        policy.eligible(d, draw, now) <==> (d.status == "pending"@ || d.status == "failed"@)
            && d.attempts < policy.max_attempts),
{
}

/// A random delay is the draw, reduced to what `jitter_secs` allows.
pub proof fn law_draw_within_the_jitter_is_the_delay(policy: RedrivePolicy, draw: int)
    requires
        0 <= draw <= policy.jitter_secs,
    ensures
        policy.jitter(draw) == Some(draw),
        policy.jitter(draw + policy.jitter_secs + 1) == Some(draw),
{
    let span = policy.jitter_secs + 1;
    assert((draw + span) % span == draw) by (nonlinear_arith)
        requires
            0 <= draw < span,
    ;
    assert(draw % span == draw) by (nonlinear_arith)
        requires
            0 <= draw < span,
    ;
}

/// The redrive list holds a delivery exactly when it is stored and eligible with
/// the draw made for its place, each once; never attempted ones come first, then
/// the one whose last attempt is the earliest.
pub proof fn law_redrive_list_is_longest_idle_first(
    v: DbView,
    policy: RedrivePolicy,
    draws: Seq<u64>,
    now: int,
    i: int,
    j: int,
)
    requires
        v.inv(),
        0 <= i < j < v.redrive_list(policy, draws, now).len(),
    ensures
        ({
            let list = v.redrive_list(policy, draws, now);
            &&& list[i].id != list[j].id
            &&& list[j].last_attempt is None ==> list[i].last_attempt is None
            &&& list[i].last_attempt matches Some(x) ==> list[j].last_attempt matches Some(y)
                && !text::lex_lt(y, x)
        }),
{
    let list = v.redrive_list(policy, draws, now);
    delivery_laws::law_redrive_list(v, policy, draws, now, list[i]);
    assert(!deliveries::stalest_first()(list[j], list[i]));
    let s = v.webhook_deliveries;
    let pairs = Seq::new(s.len(), |i: int| (s[i], deliveries::draw_at(draws, i)));
    let p = |x: (WebhookDeliveryView, int)| policy.eligible(x.0, x.1, now);
    let pair_id = |x: (WebhookDeliveryView, int)| x.0.id;
    let id = |d: WebhookDeliveryView| d.id;
    assert(table::distinct(pairs, pair_id)) by {
        assert forall|a: int, b: int| 0 <= a < b < pairs.len() implies pair_id(#[trigger] pairs[a])
            != pair_id(#[trigger] pairs[b]) by {
            assert(s[a].id != s[b].id);
        }
    }
    table::lemma_filter_distinct(pairs, p, pair_id);
    let rows = deliveries::eligible_rows(s, policy, draws, now);
    assert(table::distinct(rows, id)) by {
        let hits = pairs.filter(p);
        assert forall|a: int, b: int| 0 <= a < b < rows.len() implies id(#[trigger] rows[a]) != id(
            #[trigger] rows[b],
        ) by {
            assert(pair_id(hits[a]) != pair_id(hits[b]));
        }
    }
    table::lemma_sorted_distinct(rows, deliveries::stalest_first(), id);
    assert(id(list[i]) != id(list[j]));
}

/// The draw of a delivery is the one at its place; a delivery without one has `0`.
pub proof fn law_draws_go_by_place(draws: Seq<u64>, i: int)
    ensures
        0 <= i < draws.len() ==> deliveries::draw_at(draws, i) == draws[i],
        i >= draws.len() ==> deliveries::draw_at(draws, i) == 0,
{
}

/// Handing deliveries out keeps each of them in its place and changes none but the
/// form of its timestamps.
pub proof fn law_deliveries_are_handed_out_whole(s: Seq<WebhookDeliveryView>, i: int)
    requires
        0 <= i < s.len(),
    ensures
        deliveries::handed_out(s).len() == s.len(),
        ({
            let d = s[i];
            let e = deliveries::handed_out(s)[i];
            &&& e == d.normalized()
            &&& e.id == d.id
            &&& e.payment_id == d.payment_id
            &&& e.url == d.url
            &&& e.payload == d.payload
            &&& e.event_type == d.event_type
            &&& e.status == d.status
            &&& e.attempts == d.attempts
            &&& e.created_at == timestamp::normalized(d.created_at)
            &&& d.last_attempt is None ==> e.last_attempt is None
            &&& d.last_attempt matches Some(t) ==> e.last_attempt == Some(timestamp::normalized(t))
            &&& d.acknowledged_at is None ==> e.acknowledged_at is None
            &&& d.acknowledged_at matches Some(t) ==> e.acknowledged_at == Some(
                timestamp::normalized(t),
            )
        }),
{
}

/// A stored delivery is found by its id, and nothing is found by an id that no
/// delivery has.
pub proof fn law_delivery_is_found_by_id(v: DbView, i: int, id: Seq<char>)
    requires
        v.inv(),
    ensures
        0 <= i < v.webhook_deliveries.len() ==> v.delivery(v.webhook_deliveries[i].id) == Some(
            v.webhook_deliveries[i].normalized(),
        ),
        (forall|j: int|
            0 <= j < v.webhook_deliveries.len() ==> (#[trigger] v.webhook_deliveries[j]).id != id)
            ==> v.delivery(id) is None,
        deliveries::holds_id(v.webhook_deliveries, id) <==> v.delivery(id) is Some,
{
    let q = |d: WebhookDeliveryView| d.id == id;
    table::lemma_filter_nonempty(v.webhook_deliveries, q);
    if 0 <= i < v.webhook_deliveries.len() {
        let p = |d: WebhookDeliveryView| d.id == v.webhook_deliveries[i].id;
        table::lemma_first_is_only(v.webhook_deliveries, p, i);
    }
}

/// The list of a payment's deliveries has as many rows as the payment has
/// deliveries.
pub proof fn law_delivery_list_is_complete(v: DbView, payment_id: Seq<char>)
    ensures
        v.deliveries_of(payment_id).len() == v.webhook_deliveries.filter(
            |d: WebhookDeliveryView| d.payment_id == payment_id,
        ).len(),
{
    table::lemma_sorted_same_rows(
        v.webhook_deliveries.filter(|d: WebhookDeliveryView| d.payment_id == payment_id),
        deliveries::newest_delivery_first(),
    );
}

/// What an attempt writes: the status, one attempt more, and the current time. Every
/// other field, every other delivery and every other table stays. It is refused
/// exactly where the attempts cannot be counted up.
pub proof fn law_attempt_writes_three_fields(
    v: DbView,
    id: Seq<char>,
    status: Seq<char>,
    now: int,
    i: int,
)
    requires
        0 <= i < v.webhook_deliveries.len(),
    ensures
        ({
            let after = v.after_attempt(id, status, now);
            let d = v.webhook_deliveries[i];
            let e = after.webhook_deliveries[i];
            &&& after.webhook_deliveries.len() == v.webhook_deliveries.len()
            &&& after == (DbView { webhook_deliveries: after.webhook_deliveries, ..v })
            &&& d.id != id ==> e == d
            &&& d.id == id ==> {
                &&& e.status == status
                &&& e.attempts == d.attempts + 1
                &&& e.last_attempt == Some(timestamp::timestamp_text(now))
                &&& e.id == d.id
                &&& e.payment_id == d.payment_id
                &&& e.url == d.url
                &&& e.payload == d.payload
                &&& e.event_type == d.event_type
                &&& e.acknowledged_at == d.acknowledged_at
                &&& e.created_at == d.created_at
            }
            &&& v.can_count_attempt(id) && d.id == id ==> d.attempts < 0x7fff_ffff_ffff_ffff
            &&& !v.can_count_attempt(id) ==> exists|j: int|
                0 <= j < v.webhook_deliveries.len() && (#[trigger] v.webhook_deliveries[j]).id == id
                    && v.webhook_deliveries[j].attempts >= 0x7fff_ffff_ffff_ffff
        }),
{
}

/// What an acknowledgement writes: the current time, where the delivery is listed
/// and was not acknowledged before. Every other field, every other delivery and
/// every other table stays. The count is that of the deliveries it changes.
pub proof fn law_acknowledgement_writes_one_field(v: DbView, ids: Seq<String>, now: int, i: int)
    requires
        0 <= i < v.webhook_deliveries.len(),
    ensures
        ({
            let after = v.after_acknowledgement(ids, now);
            let d = v.webhook_deliveries[i];
            let e = after.webhook_deliveries[i];
            let listed = exists|k: int| 0 <= k < ids.len() && (#[trigger] ids[k])@ == d.id;
            &&& after.webhook_deliveries.len() == v.webhook_deliveries.len()
            &&& after == (DbView { webhook_deliveries: after.webhook_deliveries, ..v })
            &&& !listed || d.acknowledged_at is Some ==> e == d
            &&& listed && d.acknowledged_at is None ==> e == (WebhookDeliveryView {
                acknowledged_at: Some(timestamp::timestamp_text(now)),
                ..d
            })
        }),
        v.unacknowledged(ids) == v.webhook_deliveries.filter(
            |d: WebhookDeliveryView|
                d.acknowledged_at is None && exists|k: int|
                    0 <= k < ids.len() && (#[trigger] ids[k])@ == d.id,
        ).len(),
{
    let p = |d: WebhookDeliveryView|
        deliveries::lists_id(ids, d.id) && d.acknowledged_at is None;
    let q = |d: WebhookDeliveryView|
        d.acknowledged_at is None && exists|k: int|
            0 <= k < ids.len() && (#[trigger] ids[k])@ == d.id;
    assert forall|j: int| 0 <= j < v.webhook_deliveries.len() implies p(
        #[trigger] v.webhook_deliveries[j],
    ) == q(v.webhook_deliveries[j]) by {}
    table::lemma_filter_same(v.webhook_deliveries, p, q);
}

/// What retention without limit removes: exactly the deliveries that are
/// `delivered` or `failed`, were created more than `retention_days` days ago, and
/// were not acknowledged.
pub proof fn law_retention_removes(
    v: DbView,
    retention_days: int,
    batch_size: int,
    now: int,
    i: int,
    created: int,
)
    requires
        v.inv(),
        0 <= i < v.webhook_deliveries.len(),
        timestamp::in_range(created),
        v.webhook_deliveries[i].created_at == timestamp::timestamp_text(created),
    ensures
        ({
            let d = v.webhook_deliveries[i];
            let after = v.after_delivery_pruning(retention_days, batch_size, now);
            let old = (d.status == "delivered"@ || d.status == "failed"@) && now - created
                > retention_days * 86400 && d.acknowledged_at is None;
            &&& after == (DbView { webhook_deliveries: after.webhook_deliveries, ..v })
            &&& !old ==> after.webhook_deliveries.contains(d)
            &&& batch_size < 0 && old ==> !after.webhook_deliveries.contains(d)
            &&& batch_size >= v.webhook_deliveries.len() && old
                ==> !after.webhook_deliveries.contains(d)
        }),
{
    reading::lemma_text_reads_back(created, now);
    let all = v.webhook_deliveries;
    let d = all[i];
    let p = |d: WebhookDeliveryView| d.prunable(retention_days, now);
    let pruned = v.deliveries_to_prune(retention_days, batch_size, now);
    let kept = delivery_laws::lemma_retention(v, retention_days, batch_size, now);
    let after = v.after_delivery_pruning(retention_days, batch_size, now).webhook_deliveries;
    table::lemma_filter_members(all, kept, d);
    assert(all.contains(d));
    all.lemma_filter_len(p);
    if d.prunable(retention_days, now) && (batch_size < 0 || batch_size >= all.len()) {
        table::lemma_filter_members(all, p, d);
        assert(pruned =~= all.filter(p));
        assert(after.filter(p).len() == 0);
        table::lemma_filter_members(after, p, d);
    }
}

/// A limited retention takes the deliveries that were stored first: where it
/// removes one, it removes every one stored before it that it may remove.
pub proof fn law_retention_takes_the_first_stored(
    v: DbView,
    retention_days: int,
    batch_size: int,
    now: int,
    i: int,
    j: int,
)
    requires
        v.inv(),
        0 <= i < j < v.webhook_deliveries.len(),
        v.webhook_deliveries[i].prunable(retention_days, now),
        !v.after_delivery_pruning(retention_days, batch_size, now).webhook_deliveries.contains(
            v.webhook_deliveries[j],
        ),
    ensures
        !v.after_delivery_pruning(retention_days, batch_size, now).webhook_deliveries.contains(
            v.webhook_deliveries[i],
        ),
{
    let all = v.webhook_deliveries;
    let p = |d: WebhookDeliveryView| d.prunable(retention_days, now);
    let pruned = v.deliveries_to_prune(retention_days, batch_size, now);
    let kept = |d: WebhookDeliveryView| !deliveries::holds_id(pruned, d.id);
    let hits = all.filter(p);
    table::lemma_filter_members(all, kept, all[i]);
    table::lemma_filter_members(all, kept, all[j]);
    assert(all.contains(all[j]));
    assert(deliveries::holds_id(pruned, all[j].id));
    let b = choose|b: int| 0 <= b < pruned.len() && (#[trigger] pruned[b]).id == all[j].id;
    assert(pruned[b] == hits[b]);
    table::lemma_filter_members(all, p, hits[b]);
    assert(hits.contains(hits[b]));
    let m = choose|m: int| 0 <= m < all.len() && all[m] == hits[b];
    if m < j {
        assert(all[m].id != all[j].id);
    } else if j < m {
        assert(all[j].id != all[m].id);
    }
    let a = table::lemma_filter_keeps_order(all, p, i, j);
    let id = |d: WebhookDeliveryView| d.id;
    assert(table::distinct(all, id));
    table::lemma_filter_distinct(all, p, id);
    if a.1 < b {
        assert(id(hits[a.1]) != id(hits[b]));
    } else if b < a.1 {
        assert(id(hits[b]) != id(hits[a.1]));
    }
    assert(pruned[a.0] == all[i]);
    assert(pruned[a.0].id == all[i].id);
}

/// A limited retention removes as many deliveries as it may remove, up to its limit.
pub proof fn law_retention_takes_as_many_as_it_may(
    v: DbView,
    retention_days: int,
    batch_size: int,
    now: int,
)
    requires
        v.inv(),
    ensures
        ({
            let old = v.webhook_deliveries.filter(
                |d: WebhookDeliveryView|
                    (d.status == "delivered"@ || d.status == "failed"@) && d.acknowledged_at is None
                        && (reading::unix_of_text(d.created_at, now) matches Some(t) && now - t
                        > retention_days * 86400),
            ).len();
            v.webhook_deliveries.len() - v.after_delivery_pruning(
                retention_days,
                batch_size,
                now,
            ).webhook_deliveries.len() == (if 0 <= batch_size < old {
                batch_size
            } else {
                old as int
            })
        }),
{
    delivery_laws::law_delivery_pruning_is_bounded(v, retention_days, batch_size, now);
    table::lemma_filter_same(
        v.webhook_deliveries,
        |d: WebhookDeliveryView| d.prunable(retention_days, now),
        |d: WebhookDeliveryView|
            (d.status == "delivered"@ || d.status == "failed"@) && d.acknowledged_at is None && (
            reading::unix_of_text(d.created_at, now) matches Some(t) && now - t > retention_days
                * 86400),
    );
}

/// A delivery with an attempt but no count of attempts waits for the grace window, or
/// for a ceiling that is not negative, with the random delay on top.
pub proof fn law_uncounted_attempt_has_no_backoff(
    policy: RedrivePolicy,
    d: WebhookDeliveryView,
    attempted: int,
    draw: int,
    now: int,
)
    requires
        policy.jitter_secs >= 0,
        policy.grace_secs >= 0,
        draw >= 0,
        d.attempts <= 0,
        timestamp::in_range(attempted),
        d.last_attempt == Some(timestamp::timestamp_text(attempted)),
    ensures
        policy.eligible(d, draw, now) <==> (d.status == "pending"@ || d.status == "failed"@)
            && d.attempts < policy.max_attempts && now - attempted >= policy.grace_secs + draw % (
        policy.jitter_secs + 1),
{
    reading::lemma_text_reads_back(attempted, now);
}

/// A negative jitter: one of `-1` leaves no delay to draw, so no delivery is tried a
/// second time; a smaller one is as far below `-1` as its largest delay goes.
pub proof fn law_negative_jitter(
    policy: RedrivePolicy,
    d: WebhookDeliveryView,
    draw: int,
    now: int,
)
    requires
        policy.jitter_secs < 0,
        draw >= 0,
    ensures
        policy.jitter_secs == -1 && d.last_attempt is Some ==> !policy.eligible(d, draw, now),
        policy.jitter_secs < -1 ==> (policy.jitter(draw) matches Some(delay) && 0 <= delay
            < -policy.jitter_secs - 1 && (draw - delay) % (-policy.jitter_secs - 1) == 0),
{
    if policy.jitter_secs < -1 {
        let span = -policy.jitter_secs - 1;
        assert((draw - draw % span) % span == 0 && 0 <= draw % span < span) by (nonlinear_arith)
            requires
                span > 0,
        ;
    }
}

} // verus!

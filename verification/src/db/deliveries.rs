//! Webhook deliveries: recording, redrive and retention.
use vstd::prelude::*;

use crate::db::rows::{WebhookDelivery, WebhookDeliveryView};
use crate::db::{Db, DbError, DbView};
use crate::reading;
use crate::table;
use crate::table::{Change, Condition, Row, RowOrder, Stored};
use crate::text;
use crate::timestamp;
use crate::timestamp::Moment;

verus! {

/// When a delivery is tried again.
pub struct RedrivePolicy {
    /// Attempts after which a delivery is left alone.
    pub max_attempts: i64,
    /// Idle time before a delivery is touched, and the floor under the backoff.
    pub grace_secs: i64,
    /// The backoff after the first attempt; it doubles with every further one.
    pub backoff_initial: i64,
    /// The ceiling of the backoff.
    pub backoff_max: i64,
    /// The largest random delay on top.
    pub jitter_secs: i64,
}

/// Two to a power.
pub open spec fn pow2(k: int) -> int
    decreases k,
{
    if k <= 0 {
        1
    } else {
        2 * pow2(k - 1)
    }
}

/// The larger of two numbers.
pub open spec fn max(a: int, b: int) -> int {
    if a >= b {
        a
    } else {
        b
    }
}

/// The smaller of two numbers.
pub open spec fn min(a: int, b: int) -> int {
    if a <= b {
        a
    } else {
        b
    }
}

impl RedrivePolicy {
    /// The exponential backoff behind a number of attempts, before it is
    /// clipped: nothing before the first attempt.
    pub open spec fn growth(self, attempts: int) -> int {
        if attempts <= 0 {
            0
        } else {
            self.backoff_initial * pow2(attempts - 1)
        }
    }

    /// The seconds to wait behind a number of attempts: the backoff, at most its
    /// ceiling and at least the grace window.
    pub open spec fn wait(self, attempts: int) -> int {
        max(self.grace_secs as int, min(self.growth(attempts), self.backoff_max as int))
    }

    /// The random delay that a draw gives: `0` to `jitter_secs`. A span of zero
    /// seconds admits no delay at all.
    pub open spec fn jitter(self, draw: int) -> Option<int> {
        let span = self.jitter_secs + 1;
        if span > 0 {
            Some(draw % span)
        } else if span < 0 {
            Some(draw % -span)
        } else {
            None
        }
    }

    /// Whether a delivery is due at a moment. One that was never attempted waits
    /// for the grace window only, counted from its creation.
    pub open spec fn due(self, d: WebhookDeliveryView, draw: int, now: int) -> bool {
        match d.last_attempt {
            None => reading::unix_of_text(d.created_at, now) matches Some(t) ==> now - t
                >= self.grace_secs,
            Some(last) => {
                &&& reading::unix_of_text(last, now) matches Some(t)
                &&& self.jitter(draw) matches Some(delay)
                &&& now - t >= self.wait(d.attempts) + delay
            },
        }
    }

    /// Whether a delivery is tried again: it is `pending` or `failed`, has
    /// attempts left, and is due.
    pub open spec fn eligible(self, d: WebhookDeliveryView, draw: int, now: int) -> bool {
        &&& d.status == "pending"@ || d.status == "failed"@
        &&& d.attempts < self.max_attempts
        &&& self.due(d, draw, now)
    }
}

/// The random draw of the delivery at a position; `0` where none was made.
pub open spec fn draw_at(draws: Seq<u64>, i: int) -> int {
    if 0 <= i < draws.len() {
        draws[i] as int
    } else {
        0
    }
}

/// Longest idle first: never attempted, then the earliest last attempt.
pub open spec fn stalest_first() -> spec_fn(WebhookDeliveryView, WebhookDeliveryView) -> bool {
    |a: WebhookDeliveryView, b: WebhookDeliveryView|
        match (a.last_attempt, b.last_attempt) {
            (None, Some(_)) => true,
            (Some(x), Some(y)) => text::lex_lt(x, y),
            _ => false,
        }
}

/// Newest first.
pub open spec fn newest_delivery_first() -> spec_fn(
    WebhookDeliveryView,
    WebhookDeliveryView,
) -> bool {
    |a: WebhookDeliveryView, b: WebhookDeliveryView| text::lex_lt(b.created_at, a.created_at)
}

/// How deliveries are handed out: with their timestamps in normal form.
pub open spec fn handed_out(s: Seq<WebhookDeliveryView>) -> Seq<WebhookDeliveryView> {
    s.map_values(|d: WebhookDeliveryView| d.normalized())
}

impl WebhookDeliveryView {
    /// Whether a delivery is over, by success or by failure.
    pub open spec fn terminal(self) -> bool {
        self.status == "delivered"@ || self.status == "failed"@
    }

    /// Whether retention removes a delivery: it is over, older than the
    /// retention, and was not acknowledged.
    pub open spec fn prunable(self, retention_days: int, now: int) -> bool {
        &&& self.terminal()
        &&& reading::older_than(self.created_at, retention_days, now)
        &&& self.acknowledged_at is None
    }
}

/// Whether deliveries hold an id.
pub open spec fn holds_id(s: Seq<WebhookDeliveryView>, id: Seq<char>) -> bool {
    exists|i: int| 0 <= i < s.len() && (#[trigger] s[i]).id == id
}

/// Whether a list of ids holds one.
pub open spec fn lists_id(ids: Seq<String>, id: Seq<char>) -> bool {
    exists|i: int| 0 <= i < ids.len() && (#[trigger] ids[i])@ == id
}

impl DbView {
    /// The delivery with this id, handed out.
    pub open spec fn delivery(self, id: Seq<char>) -> Option<WebhookDeliveryView> {
        match table::first(self.webhook_deliveries, |d: WebhookDeliveryView| d.id == id) {
            Some(d) => Some(d.normalized()),
            None => None,
        }
    }

    /// The deliveries of a payment, newest first, handed out.
    pub open spec fn deliveries_of(self, payment_id: Seq<char>) -> Seq<WebhookDeliveryView> {
        handed_out(
            table::sorted(
                self.webhook_deliveries.filter(
                    |d: WebhookDeliveryView| d.payment_id == payment_id,
                ),
                newest_delivery_first(),
            ),
        )
    }

    /// Whether the attempts of a delivery with this id can be counted up.
    pub open spec fn can_count_attempt(self, id: Seq<char>) -> bool {
        forall|i: int|
            0 <= i < self.webhook_deliveries.len() && (#[trigger] self.webhook_deliveries[i]).id
                == id ==> self.webhook_deliveries[i].attempts < i64::MAX
    }

    /// The store after an attempt at a delivery.
    pub open spec fn after_attempt(self, id: Seq<char>, status: Seq<char>, now: int) -> DbView {
        DbView {
            webhook_deliveries: table::edited(
                self.webhook_deliveries,
                |d: WebhookDeliveryView| d.id == id,
                |d: WebhookDeliveryView|
                    WebhookDeliveryView {
                        status,
                        attempts: d.attempts + 1,
                        last_attempt: Some(timestamp::timestamp_text(now)),
                        ..d
                    },
            ),
            ..self
        }
    }

    /// The deliveries that are tried again, longest idle first.
    pub open spec fn redrive_list(self, policy: RedrivePolicy, draws: Seq<u64>, now: int) -> Seq<
        WebhookDeliveryView,
    > {
        table::sorted(
            eligible_rows(self.webhook_deliveries, policy, draws, now),
            stalest_first(),
        )
    }

    /// The deliveries that retention takes: the first `batch_size` of those that
    /// it may remove.
    pub open spec fn deliveries_to_prune(
        self,
        retention_days: int,
        batch_size: int,
        now: int,
    ) -> Seq<WebhookDeliveryView> {
        table::page(
            self.webhook_deliveries.filter(
                |d: WebhookDeliveryView| d.prunable(retention_days, now),
            ),
            0,
            batch_size,
        )
    }

    /// The store without the deliveries that retention takes.
    pub open spec fn after_delivery_pruning(
        self,
        retention_days: int,
        batch_size: int,
        now: int,
    ) -> DbView {
        let pruned = self.deliveries_to_prune(retention_days, batch_size, now);
        DbView {
            webhook_deliveries: self.webhook_deliveries.filter(
                |d: WebhookDeliveryView| !holds_id(pruned, d.id),
            ),
            ..self
        }
    }

    /// The store after deliveries were acknowledged: one that was acknowledged
    /// before keeps its time.
    pub open spec fn after_acknowledgement(self, ids: Seq<String>, now: int) -> DbView {
        DbView {
            webhook_deliveries: table::edited(
                self.webhook_deliveries,
                |d: WebhookDeliveryView| lists_id(ids, d.id) && d.acknowledged_at is None,
                |d: WebhookDeliveryView|
                    WebhookDeliveryView {
                        acknowledged_at: Some(timestamp::timestamp_text(now)),
                        ..d
                    },
            ),
            ..self
        }
    }

    /// The number of listed deliveries that were not acknowledged.
    pub open spec fn unacknowledged(self, ids: Seq<String>) -> nat {
        self.webhook_deliveries.filter(
            |d: WebhookDeliveryView| lists_id(ids, d.id) && d.acknowledged_at is None,
        ).len()
    }
}

/// The deliveries that are tried again, each with the draw made for it.
pub open spec fn eligible_rows(
    s: Seq<WebhookDeliveryView>,
    policy: RedrivePolicy,
    draws: Seq<u64>,
    now: int,
) -> Seq<WebhookDeliveryView> {
    Seq::new(s.len(), |i: int| (s[i], draw_at(draws, i))).filter(
        |x: (WebhookDeliveryView, int)| policy.eligible(x.0, x.1, now),
    ).map_values(|x: (WebhookDeliveryView, int)| x.0)
}

struct DeliveryId<'a> {
    id: &'a str,
}

impl<'a> Condition<WebhookDelivery> for DeliveryId<'a> {
    closed spec fn holds(&self, row: WebhookDeliveryView) -> bool {
        row.id == self.id@
    }

    fn check(&self, row: &WebhookDelivery) -> (r: bool) {
        text::str_eq(row.id.as_str(), self.id)
    }
}

/// Records a delivery that is to be made.
pub fn create_webhook_delivery(
    pool: &mut Db,
    id: &str,
    payment_id: &str,
    url: &str,
    payload: &str,
    event_type: Option<&str>,
    now: &Moment,
) -> (r: Result<WebhookDelivery, DbError>)
    ensures
        match r {
            Ok(d) => {
                &&& !holds_id(old(pool)@.webhook_deliveries, id@)
                &&& d@ == (WebhookDeliveryView {
                    id: id@,
                    payment_id: payment_id@,
                    url: url@,
                    payload: payload@,
                    event_type: text::opt_str_view(event_type),
                    status: "pending"@,
                    attempts: 0,
                    last_attempt: None,
                    acknowledged_at: None,
                    created_at: timestamp::timestamp_text(now@),
                })
                &&& final(pool)@ == (DbView {
                    webhook_deliveries: old(pool)@.webhook_deliveries.push(d@),
                    ..old(pool)@
                })
            },
            Err(e) => {
                &&& e == DbError::DuplicateKey
                &&& holds_id(old(pool)@.webhook_deliveries, id@)
                &&& final(pool)@ == old(pool)@
            },
        },
        old(pool)@.inv() ==> final(pool)@.inv(),
{
    let c = DeliveryId { id };
    let taken: usize = table::count(&pool.webhook_deliveries, &c);
    proof {
        let p = |d: WebhookDeliveryView| d.id == id@;
        assert(table::predicate::<WebhookDelivery, DeliveryId>(c) =~= p);
        table::lemma_filter_nonempty(pool@.webhook_deliveries, p);
    }
    if taken > 0 {
        return Err(DbError::DuplicateKey);
    }
    let row = WebhookDelivery {
        id: id.to_owned(),
        payment_id: payment_id.to_owned(),
        url: url.to_owned(),
        payload: payload.to_owned(),
        event_type: text::own_opt(event_type),
        status: "pending".to_owned(),
        attempts: 0,
        last_attempt: None,
        acknowledged_at: None,
        created_at: now.text(),
    };
    let created = row.hand_out();
    proof {
        timestamp::lemma_text_is_normal(now@);
    }
    pool.webhook_deliveries.push(row);
    assert(pool@.webhook_deliveries =~= old(pool)@.webhook_deliveries.push(created@));
    Ok(created)
}

/// Fetches a delivery.
pub fn get_webhook_delivery(pool: &Db, id: &str) -> (r: Option<WebhookDelivery>)
    ensures
        table::opt_row(r) == pool@.delivery(id@),
{
    let c = DeliveryId { id };
    assert(table::predicate::<WebhookDelivery, DeliveryId>(c) =~= (|d: WebhookDeliveryView|
        d.id == id@));
    table::hand_out_opt(table::find(&pool.webhook_deliveries, &c))
}

struct DeliveriesOf<'a> {
    payment_id: &'a str,
}

impl<'a> Condition<WebhookDelivery> for DeliveriesOf<'a> {
    closed spec fn holds(&self, row: WebhookDeliveryView) -> bool {
        row.payment_id == self.payment_id@
    }

    fn check(&self, row: &WebhookDelivery) -> (r: bool) {
        text::str_eq(row.payment_id.as_str(), self.payment_id)
    }
}

struct NewestDeliveryFirst;

impl RowOrder<WebhookDelivery> for NewestDeliveryFirst {
    closed spec fn before(a: WebhookDeliveryView, b: WebhookDeliveryView) -> bool {
        newest_delivery_first()(a, b)
    }

    fn is_before(a: &WebhookDelivery, b: &WebhookDelivery) -> (r: bool) {
        text::str_lt(b.created_at.as_str(), a.created_at.as_str())
    }
}

/// Every delivery of a payment, newest first.
pub fn list_webhook_deliveries_for_payment(pool: &Db, payment_id: &str) -> (r: Vec<WebhookDelivery>)
    ensures
        table::views(r@) == pool@.deliveries_of(payment_id@),
{
    let c = DeliveriesOf { payment_id };
    let hits = table::select(&pool.webhook_deliveries, &c);
    proof {
        assert(table::predicate::<WebhookDelivery, DeliveriesOf>(c) =~= (|d: WebhookDeliveryView|
            d.payment_id == payment_id@));
        assert(table::relation::<WebhookDelivery, NewestDeliveryFirst>()
            =~= newest_delivery_first());
        assert(table::form::<WebhookDelivery>() =~= (|d: WebhookDeliveryView| d.normalized()));
    }
    let in_order = table::sort::<WebhookDelivery, NewestDeliveryFirst>(&hits);
    table::hand_out_all(&in_order)
}

struct Exhausted<'a> {
    id: &'a str,
}

impl<'a> Condition<WebhookDelivery> for Exhausted<'a> {
    closed spec fn holds(&self, row: WebhookDeliveryView) -> bool {
        row.id == self.id@ && row.attempts >= i64::MAX
    }

    fn check(&self, row: &WebhookDelivery) -> (r: bool) {
        text::str_eq(row.id.as_str(), self.id) && row.attempts >= i64::MAX
    }
}

struct Attempt<'a> {
    id: &'a str,
    status: &'a str,
    now: String,
}

impl<'a> Condition<WebhookDelivery> for Attempt<'a> {
    closed spec fn holds(&self, row: WebhookDeliveryView) -> bool {
        row.id == self.id@
    }

    fn check(&self, row: &WebhookDelivery) -> (r: bool) {
        text::str_eq(row.id.as_str(), self.id)
    }
}

impl<'a> Change<WebhookDelivery> for Attempt<'a> {
    closed spec fn changed(&self, row: WebhookDeliveryView) -> WebhookDeliveryView {
        WebhookDeliveryView {
            status: self.status@,
            attempts: if row.attempts < i64::MAX {
                row.attempts + 1
            } else {
                row.attempts
            },
            last_attempt: Some(self.now@),
            ..row
        }
    }

    fn apply(&self, row: &WebhookDelivery) -> (r: WebhookDelivery) {
        let mut d = row.clone();
        d.status = self.status.to_owned();
        if d.attempts < i64::MAX {
            d.attempts = d.attempts + 1;
        }
        d.last_attempt = Some(self.now.clone());
        d
    }
}

/// Records an attempt at a delivery and the status that it left. An attempt
/// beyond what the counter can hold is refused.
pub fn update_webhook_delivery_status(pool: &mut Db, id: &str, status: &str, now: &Moment) -> (r:
    Result<(), DbError>)
    ensures
        match r {
            Ok(()) => {
                &&& old(pool)@.can_count_attempt(id@)
                &&& final(pool)@ == old(pool)@.after_attempt(id@, status@, now@)
            },
            Err(e) => {
                &&& e == DbError::IntegerOverflow
                &&& !old(pool)@.can_count_attempt(id@)
                &&& final(pool)@ == old(pool)@
            },
        },
        old(pool)@.inv() ==> final(pool)@.inv(),
{
    let full = Exhausted { id };
    let n: usize = table::count(&pool.webhook_deliveries, &full);
    let ghost before = pool@.webhook_deliveries;
    proof {
        let p = |d: WebhookDeliveryView| d.id == id@ && d.attempts >= i64::MAX;
        assert(table::predicate::<WebhookDelivery, Exhausted>(full) =~= p);
        table::lemma_filter_nonempty(before, p);
        if n == 0 {
            assert forall|i: int| 0 <= i < before.len() && (#[trigger] before[i]).id
                == id@ implies before[i].attempts < i64::MAX by {
                assert(!p(before[i]));
            }
        }
    }
    if n > 0 {
        return Err(DbError::IntegerOverflow);
    }
    let c = Attempt { id, status, now: now.text() };
    table::edit(&mut pool.webhook_deliveries, &c);
    proof {
        assert(table::predicate::<WebhookDelivery, Attempt>(c) =~= (|d: WebhookDeliveryView|
            d.id == id@));
        assert(pool@.webhook_deliveries =~= old(pool)@.after_attempt(
            id@,
            status@,
            now@,
        ).webhook_deliveries);
        lemma_same_delivery_ids_keep_inv(old(pool)@, pool@);
    }
    Ok(())
}

impl RedrivePolicy {
    /// The seconds to wait behind a number of attempts.
    pub fn wait_secs(&self, attempts: i64) -> (r: i64)
        ensures
            r == self.wait(attempts as int),
    {
        let mut grown: i128 = if attempts <= 0 {
            0
        } else {
            self.backoff_initial as i128
        };
        if attempts > 0 {
            let mut k: i64 = 1;
            while k < attempts && grown != 0 && -0x1_0000_0000_0000_0000 < grown && grown
                < 0x1_0000_0000_0000_0000
                invariant
                    1 <= k <= attempts,
                    grown == self.backoff_initial * pow2(k - 1),
                    -0x2_0000_0000_0000_0000 <= grown <= 0x2_0000_0000_0000_0000,
                decreases attempts - k,
            {
                proof {
                    let x = self.backoff_initial as int;
                    let y = pow2(k - 1);
                    assert(x * (2 * y) == 2 * (x * y)) by (nonlinear_arith);
                }
                grown = 2 * grown;
                k += 1;
            }
            proof {
                lemma_growth_continues(self.backoff_initial as int, k - 1, attempts - 1);
            }
        }
        let capped: i128 = if grown <= self.backoff_max as i128 {
            grown
        } else {
            self.backoff_max as i128
        };
        if self.grace_secs as i128 >= capped {
            self.grace_secs
        } else {
            capped as i64
        }
    }

    /// The random delay that a draw gives.
    pub fn jitter_of(&self, draw: u64) -> (r: Option<i128>)
        ensures
            match r {
                Some(j) => self.jitter(draw as int) == Some(j as int) && 0 <= j <= u64::MAX,
                None => self.jitter(draw as int) is None,
            },
    {
        let span: i128 = self.jitter_secs as i128 + 1;
        if span > 0 {
            Some(draw as i128 % span)
        } else if span < 0 {
            Some(draw as i128 % -span)
        } else {
            None
        }
    }

    /// Whether a delivery is tried again.
    pub fn is_eligible(&self, d: &WebhookDelivery, draw: u64, now: &Moment) -> (r: bool)
        ensures
            r == self.eligible(d@, draw as int, now@),
    {
        if !text::str_eq(d.status.as_str(), "pending") && !text::str_eq(
            d.status.as_str(),
            "failed",
        ) {
            return false;
        }
        if d.attempts >= self.max_attempts {
            return false;
        }
        match &d.last_attempt {
            None => match reading::parse_ts(d.created_at.as_str(), now) {
                Some(t) => now.unix() as i128 - t as i128 >= self.grace_secs as i128,
                None => true,
            },
            Some(last) => match reading::parse_ts(last.as_str(), now) {
                Some(t) => match self.jitter_of(draw) {
                    Some(delay) => now.unix() as i128 - t as i128 >= self.wait_secs(
                        d.attempts,
                    ) as i128 + delay,
                    None => false,
                },
                None => false,
            },
        }
    }
}

/// A growth that is zero stays so, and one beyond 64 bits stays beyond them.
proof fn lemma_growth_continues(x: int, k: int, n: int)
    requires
        0 <= k <= n,
    ensures
        x * pow2(k) == 0 ==> x * pow2(n) == 0,
        x * pow2(k) >= 0x1_0000_0000_0000_0000 ==> x * pow2(n) >= 0x1_0000_0000_0000_0000,
        x * pow2(k) <= -0x1_0000_0000_0000_0000 ==> x * pow2(n) <= -0x1_0000_0000_0000_0000,
    decreases n - k,
{
    if k < n {
        lemma_growth_continues(x, k, n - 1);
        let y = pow2(n - 1);
        assert(x * (2 * y) == 2 * (x * y)) by (nonlinear_arith);
    }
}

struct StalestFirst;

impl RowOrder<WebhookDelivery> for StalestFirst {
    closed spec fn before(a: WebhookDeliveryView, b: WebhookDeliveryView) -> bool {
        stalest_first()(a, b)
    }

    fn is_before(a: &WebhookDelivery, b: &WebhookDelivery) -> (r: bool) {
        match (&a.last_attempt, &b.last_attempt) {
            (None, Some(_)) => true,
            (Some(x), Some(y)) => text::str_lt(x.as_str(), y.as_str()),
            _ => false,
        }
    }
}

/// Finds at most `limit` deliveries to try again, longest idle first: `pending`
/// or `failed`, not attempted recently, and below the attempt limit.
///
/// `grace_secs` keeps a delivery from racing an attempt in flight,
/// `backoff_initial` and `backoff_max` spread retries, and `draws`, one random
/// number for each stored delivery, decorrelates deliveries that failed
/// together by up to `jitter_secs`.
pub fn find_eligible_for_redrive(
    pool: &Db,
    max_attempts: i64,
    grace_secs: i64,
    backoff_initial: i64,
    backoff_max: i64,
    jitter_secs: i64,
    limit: i64,
    draws: &[u64],
    now: &Moment,
) -> (r: Vec<WebhookDelivery>)
    ensures
        table::views(r@) == handed_out(
            table::page(
                pool@.redrive_list(
                    RedrivePolicy {
                        max_attempts,
                        grace_secs,
                        backoff_initial,
                        backoff_max,
                        jitter_secs,
                    },
                    draws@,
                    now@,
                ),
                0,
                limit as int,
            ),
        ),
{
    let policy = RedrivePolicy {
        max_attempts,
        grace_secs,
        backoff_initial,
        backoff_max,
        jitter_secs,
    };
    let mut hits: Vec<WebhookDelivery> = Vec::new();
    let mut i: usize = 0;
    let ghost all = pool@.webhook_deliveries;
    let ghost pairs = Seq::new(all.len(), |i: int| (all[i], draw_at(draws@, i)));
    let ghost p = |x: (WebhookDeliveryView, int)| policy.eligible(x.0, x.1, now@);
    let ghost fst = |x: (WebhookDeliveryView, int)| x.0;
    proof {
        table::lemma_filter_none(pairs, p);
        assert(table::views(hits@) =~= pairs.take(0).filter(p).map_values(fst));
    }
    while i < pool.webhook_deliveries.len()
        invariant
            all == table::views(pool.webhook_deliveries@),
            pairs == Seq::new(all.len(), |i: int| (all[i], draw_at(draws@, i))),
            p == (|x: (WebhookDeliveryView, int)| policy.eligible(x.0, x.1, now@)),
            fst == (|x: (WebhookDeliveryView, int)| x.0),
            i <= pool.webhook_deliveries.len(),
            table::views(hits@) == pairs.take(i as int).filter(p).map_values(fst),
        decreases pool.webhook_deliveries.len() - i,
    {
        let draw: u64 = if i < draws.len() {
            draws[i]
        } else {
            0
        };
        proof {
            table::lemma_filter_step(pairs, p, i as int);
            assert(pairs[i as int] == (all[i as int], draw as int));
        }
        if policy.is_eligible(&pool.webhook_deliveries[i], draw, now) {
            let copy = pool.webhook_deliveries[i].copy();
            proof {
                let f = pairs.take(i as int).filter(p);
                assert(table::views(hits@.push(copy)) =~= table::views(hits@).push(copy@));
                assert(f.push(pairs[i as int]).map_values(fst) =~= f.map_values(fst).push(copy@));
            }
            hits.push(copy);
        }
        i += 1;
    }
    proof {
        assert(pairs.take(i as int) =~= pairs);
        assert(table::views(hits@) == eligible_rows(all, policy, draws@, now@));
        assert(table::relation::<WebhookDelivery, StalestFirst>() =~= stalest_first());
        assert(table::form::<WebhookDelivery>() =~= (|d: WebhookDeliveryView| d.normalized()));
    }
    let in_order = table::sort::<WebhookDelivery, StalestFirst>(&hits);
    let page = table::take_page(&in_order, 0, limit);
    table::hand_out_all(&page)
}

struct Prunable<'a> {
    days: i64,
    now: &'a Moment,
}

impl<'a> Condition<WebhookDelivery> for Prunable<'a> {
    closed spec fn holds(&self, row: WebhookDeliveryView) -> bool {
        row.prunable(self.days as int, self.now@)
    }

    fn check(&self, row: &WebhookDelivery) -> (r: bool) {
        (text::str_eq(row.status.as_str(), "delivered") || text::str_eq(
            row.status.as_str(),
            "failed",
        )) && reading::is_older_than(row.created_at.as_str(), self.days, self.now)
            && row.acknowledged_at.is_none()
    }
}

struct NotAmong<'a> {
    rows: &'a Vec<WebhookDelivery>,
}

impl<'a> Condition<WebhookDelivery> for NotAmong<'a> {
    closed spec fn holds(&self, row: WebhookDeliveryView) -> bool {
        !holds_id(table::views(self.rows@), row.id)
    }

    fn check(&self, row: &WebhookDelivery) -> (r: bool) {
        let ghost all = table::views(self.rows@);
        let mut i: usize = 0;
        while i < self.rows.len()
            invariant
                i <= self.rows.len(),
                all == table::views(self.rows@),
                forall|j: int| 0 <= j < i ==> (#[trigger] all[j]).id != row@.id,
            decreases self.rows.len() - i,
        {
            if text::str_eq(self.rows[i].id.as_str(), row.id.as_str()) {
                assert(all[i as int].id == row@.id);
                return false;
            }
            i += 1;
        }
        true
    }
}

/// Prunes at most `batch_size` deliveries that are over and older than
/// `retention_days`; the number of deliveries that were removed.
///
/// A `pending` delivery is exempt whatever its age: the redrive worker still
/// owns it. So is one that was acknowledged: it is kept for audit.
pub fn prune_webhook_deliveries(
    pool: &mut Db,
    retention_days: i64,
    batch_size: i64,
    now: &Moment,
) -> (r: u64)
    ensures
        final(pool)@ == old(pool)@.after_delivery_pruning(
            retention_days as int,
            batch_size as int,
            now@,
        ),
        r == old(pool)@.webhook_deliveries.len() - final(pool)@.webhook_deliveries.len(),
        old(pool)@.inv() ==> final(pool)@.inv(),
{
    let c = Prunable { days: retention_days, now };
    let hits = table::select(&pool.webhook_deliveries, &c);
    let pruned = table::take_page(&hits, 0, batch_size);
    let keep = NotAmong { rows: &pruned };
    let kept = table::select(&pool.webhook_deliveries, &keep);
    proof {
        assert(table::predicate::<WebhookDelivery, Prunable>(c) =~= (|d: WebhookDeliveryView|
            d.prunable(retention_days as int, now@)));
        let q = |d: WebhookDeliveryView| !holds_id(table::views(pruned@), d.id);
        assert(table::predicate::<WebhookDelivery, NotAmong>(keep) =~= q);
        pool@.webhook_deliveries.lemma_filter_len(q);
        lemma_fewer_deliveries_keep_inv(pool@, q);
    }
    let removed: u64 = (pool.webhook_deliveries.len() - kept.len()) as u64;
    pool.webhook_deliveries = kept;
    assert(pool@ == old(pool)@.after_delivery_pruning(
        retention_days as int,
        batch_size as int,
        now@,
    ));
    removed
}

struct Acknowledgement<'a> {
    ids: &'a [String],
    now: String,
}

impl<'a> Condition<WebhookDelivery> for Acknowledgement<'a> {
    closed spec fn holds(&self, row: WebhookDeliveryView) -> bool {
        lists_id(self.ids@, row.id) && row.acknowledged_at is None
    }

    fn check(&self, row: &WebhookDelivery) -> (r: bool) {
        if row.acknowledged_at.is_some() {
            return false;
        }
        let mut i: usize = 0;
        while i < self.ids.len()
            invariant
                row@.acknowledged_at is None,
                i <= self.ids.len(),
                forall|j: int| 0 <= j < i ==> (#[trigger] self.ids@[j])@ != row@.id,
            decreases self.ids.len() - i,
        {
            if text::str_eq(self.ids[i].as_str(), row.id.as_str()) {
                assert(self.ids@[i as int]@ == row@.id);
                return true;
            }
            i += 1;
        }
        false
    }
}

impl<'a> Change<WebhookDelivery> for Acknowledgement<'a> {
    closed spec fn changed(&self, row: WebhookDeliveryView) -> WebhookDeliveryView {
        WebhookDeliveryView { acknowledged_at: Some(self.now@), ..row }
    }

    fn apply(&self, row: &WebhookDelivery) -> (r: WebhookDelivery) {
        let mut d = row.clone();
        d.acknowledged_at = Some(self.now.clone());
        d
    }
}

/// Marks deliveries as acknowledged, so that retention does not remove them; the
/// number of deliveries that were not acknowledged before.
pub fn acknowledge_deliveries(pool: &mut Db, ids: &[String], now: &Moment) -> (r: u64)
    ensures
        final(pool)@ == old(pool)@.after_acknowledgement(ids@, now@),
        r == old(pool)@.unacknowledged(ids@),
        old(pool)@.inv() ==> final(pool)@.inv(),
{
    let c = Acknowledgement { ids, now: now.text() };
    let n: usize = table::edit(&mut pool.webhook_deliveries, &c);
    proof {
        assert(table::predicate::<WebhookDelivery, Acknowledgement>(c)
            =~= (|d: WebhookDeliveryView|
            lists_id(ids@, d.id) && d.acknowledged_at is None));
        assert(table::change::<WebhookDelivery, Acknowledgement>(c) =~= (|d: WebhookDeliveryView|
            WebhookDeliveryView {
                acknowledged_at: Some(timestamp::timestamp_text(now@)),
                ..d
            }));
        lemma_same_delivery_ids_keep_inv(old(pool)@, pool@);
    }
    n as u64
}

/// A change of deliveries that keeps their ids keeps the primary keys.
pub proof fn lemma_same_delivery_ids_keep_inv(before: DbView, after: DbView)
    requires
        after == (DbView { webhook_deliveries: after.webhook_deliveries, ..before }),
        after.webhook_deliveries.len() == before.webhook_deliveries.len(),
        forall|i: int|
            0 <= i < before.webhook_deliveries.len() ==> (
            #[trigger] after.webhook_deliveries[i]).id == before.webhook_deliveries[i].id,
    ensures
        before.inv() ==> after.inv(),
{
    if before.inv() {
        assert forall|i: int, j: int| 0 <= i < j < after.webhook_deliveries.len() implies (
        #[trigger] after.webhook_deliveries[i]).id != (
        #[trigger] after.webhook_deliveries[j]).id by {
            assert(before.webhook_deliveries[i].id != before.webhook_deliveries[j].id);
        }
    }
}

/// Removing deliveries keeps the primary keys.
proof fn lemma_fewer_deliveries_keep_inv(v: DbView, q: spec_fn(WebhookDeliveryView) -> bool)
    ensures
        v.inv() ==> (DbView { webhook_deliveries: v.webhook_deliveries.filter(q), ..v }).inv(),
{
    if v.inv() {
        let key = |d: WebhookDeliveryView| d.id;
        table::lemma_filter_distinct(v.webhook_deliveries, q, key);
        let kept = v.webhook_deliveries.filter(q);
        assert forall|i: int, j: int| 0 <= i < j < kept.len() implies (#[trigger] kept[i]).id != (
        #[trigger] kept[j]).id by {
            assert(key(kept[i]) != key(kept[j]));
        }
    }
}

} // verus!

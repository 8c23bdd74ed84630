//! Idempotency keys: the payment that a merchant's key was used for.
use vstd::prelude::*;

use crate::db::rows::{IdempotencyKey, IdempotencyKeyView};
use crate::db::{Db, DbView};
use crate::reading;
use crate::table;
use crate::table::Condition;
use crate::text;
use crate::timestamp;
use crate::timestamp::Moment;

verus! {

impl DbView {
    /// The payment that was minted for a merchant's key.
    pub open spec fn minted(self, merchant_id: Seq<char>, key: Seq<char>) -> Option<Seq<char>> {
        match table::first(
            self.idempotency_keys,
            |k: IdempotencyKeyView| k.key() == (merchant_id, key),
        ) {
            Some(k) => Some(k.payment_id),
            None => None,
        }
    }

    /// The store after a payment was recorded for a merchant's key: a key that
    /// exists keeps its payment.
    pub open spec fn after_minting(
        self,
        merchant_id: Seq<char>,
        key: Seq<char>,
        payment_id: Seq<char>,
        now: int,
    ) -> DbView {
        if self.minted(merchant_id, key) is Some {
            self
        } else {
            DbView {
                idempotency_keys: self.idempotency_keys.push(
                    IdempotencyKeyView {
                        merchant_id,
                        idempotency_key: key,
                        payment_id,
                        created_at: timestamp::timestamp_text(now),
                    },
                ),
                ..self
            }
        }
    }

    /// The keys that a pruning takes: the first `batch_size` of those that are
    /// older than the retention.
    pub open spec fn keys_to_prune(self, retention_days: int, batch_size: int, now: int) -> Seq<
        IdempotencyKeyView,
    > {
        table::page(
            self.idempotency_keys.filter(
                |k: IdempotencyKeyView| reading::older_than(k.created_at, retention_days, now),
            ),
            0,
            batch_size,
        )
    }

    /// The store without the keys that a pruning takes.
    pub open spec fn after_key_pruning(
        self,
        retention_days: int,
        batch_size: int,
        now: int,
    ) -> DbView {
        let pruned = self.keys_to_prune(retention_days, batch_size, now);
        DbView {
            idempotency_keys: self.idempotency_keys.filter(
                |k: IdempotencyKeyView| !holds_key(pruned, k.key()),
            ),
            ..self
        }
    }
}

/// Whether rows hold a key.
pub open spec fn holds_key(keys: Seq<IdempotencyKeyView>, key: (Seq<char>, Seq<char>)) -> bool {
    exists|i: int| 0 <= i < keys.len() && (#[trigger] keys[i]).key() == key
}

struct ByKey<'a> {
    merchant_id: &'a str,
    key: &'a str,
}

impl<'a> Condition<IdempotencyKey> for ByKey<'a> {
    closed spec fn holds(&self, row: IdempotencyKeyView) -> bool {
        row.key() == (self.merchant_id@, self.key@)
    }

    fn check(&self, row: &IdempotencyKey) -> (r: bool) {
        text::str_eq(row.merchant_id.as_str(), self.merchant_id) && text::str_eq(
            row.idempotency_key.as_str(),
            self.key,
        )
    }
}

/// Looks up the payment id previously minted for a merchant's key.
pub fn find_payment_id_by_idempotency_key(pool: &Db, merchant_id: &str, key: &str) -> (r: Option<
    String,
>)
    ensures
        text::opt_view(r) == pool@.minted(merchant_id@, key@),
{
    let c = ByKey { merchant_id, key };
    assert(table::predicate::<IdempotencyKey, ByKey>(c) =~= (|k: IdempotencyKeyView|
        k.key() == (merchant_id@, key@)));
    match table::find(&pool.idempotency_keys, &c) {
        Some(row) => Some(row.payment_id),
        None => None,
    }
}

/// Records the payment id minted for a merchant's key. Where the key exists, the
/// existing mapping is left untouched; the payment id that is now recorded for
/// the key is returned.
pub fn save_idempotency_key(
    pool: &mut Db,
    merchant_id: &str,
    key: &str,
    payment_id: &str,
    now: &Moment,
) -> (r: String)
    ensures
        final(pool)@ == old(pool)@.after_minting(merchant_id@, key@, payment_id@, now@),
        final(pool)@.minted(merchant_id@, key@) == Some(r@),
        r@ == (match old(pool)@.minted(merchant_id@, key@) {
            Some(id) => id,
            None => payment_id@,
        }),
        old(pool)@.inv() ==> final(pool)@.inv(),
{
    match find_payment_id_by_idempotency_key(pool, merchant_id, key) {
        Some(id) => id,
        None => {
            let row = IdempotencyKey {
                merchant_id: merchant_id.to_owned(),
                idempotency_key: key.to_owned(),
                payment_id: payment_id.to_owned(),
                created_at: now.text(),
            };
            let ghost added = row@;
            pool.idempotency_keys.push(row);
            proof {
                let p = |k: IdempotencyKeyView| k.key() == (merchant_id@, key@);
                let keys = old(pool)@.idempotency_keys;
                assert(pool@.idempotency_keys =~= keys.push(added));
                reveal(Seq::filter);
                assert(keys.push(added).drop_last() =~= keys);
                table::lemma_filter_nonempty(keys, p);
                assert forall|i: int| 0 <= i < keys.len() implies (#[trigger] keys[i]).key()
                    != added.key() by {
                    assert(!p(keys[i]));
                }
            }
            payment_id.to_owned()
        },
    }
}

struct Expired<'a> {
    days: i64,
    now: &'a Moment,
}

impl<'a> Condition<IdempotencyKey> for Expired<'a> {
    closed spec fn holds(&self, row: IdempotencyKeyView) -> bool {
        reading::older_than(row.created_at, self.days as int, self.now@)
    }

    fn check(&self, row: &IdempotencyKey) -> (r: bool) {
        reading::is_older_than(row.created_at.as_str(), self.days, self.now)
    }
}

struct NotAmong<'a> {
    rows: &'a Vec<IdempotencyKey>,
}

impl<'a> Condition<IdempotencyKey> for NotAmong<'a> {
    closed spec fn holds(&self, row: IdempotencyKeyView) -> bool {
        !holds_key(table::views(self.rows@), row.key())
    }

    fn check(&self, row: &IdempotencyKey) -> (r: bool) {
        let ghost keys = table::views(self.rows@);
        let mut i: usize = 0;
        while i < self.rows.len()
            invariant
                i <= self.rows.len(),
                keys == table::views(self.rows@),
                forall|j: int| 0 <= j < i ==> (#[trigger] keys[j]).key() != row@.key(),
            decreases self.rows.len() - i,
        {
            if text::str_eq(self.rows[i].merchant_id.as_str(), row.merchant_id.as_str())
                && text::str_eq(
                self.rows[i].idempotency_key.as_str(),
                row.idempotency_key.as_str(),
            ) {
                assert(keys[i as int].key() == row@.key());
                return false;
            }
            i += 1;
        }
        true
    }
}

/// Prunes at most `batch_size` idempotency keys older than `retention_days`; the
/// number of keys that were removed.
pub fn prune_idempotency_keys(
    pool: &mut Db,
    retention_days: i64,
    batch_size: i64,
    now: &Moment,
) -> (r: u64)
    ensures
        final(pool)@ == old(pool)@.after_key_pruning(
            retention_days as int,
            batch_size as int,
            now@,
        ),
        r == old(pool)@.idempotency_keys.len() - final(pool)@.idempotency_keys.len(),
        old(pool)@.inv() ==> final(pool)@.inv(),
{
    let c = Expired { days: retention_days, now };
    let old_keys = table::select(&pool.idempotency_keys, &c);
    let pruned = table::take_page(&old_keys, 0, batch_size);
    let keep = NotAmong { rows: &pruned };
    let kept = table::select(&pool.idempotency_keys, &keep);
    proof {
        assert(table::predicate::<IdempotencyKey, Expired>(c) =~= (|k: IdempotencyKeyView|
            reading::older_than(k.created_at, retention_days as int, now@)));
        let q = |k: IdempotencyKeyView| !holds_key(table::views(pruned@), k.key());
        assert(table::predicate::<IdempotencyKey, NotAmong>(keep) =~= q);
        pool@.idempotency_keys.lemma_filter_len(q);
        lemma_fewer_keys_keep_inv(pool@, q);
    }
    let removed: u64 = (pool.idempotency_keys.len() - kept.len()) as u64;
    pool.idempotency_keys = kept;
    assert(pool@ == old(pool)@.after_key_pruning(retention_days as int, batch_size as int, now@));
    removed
}

/// Removing keys keeps the primary keys.
proof fn lemma_fewer_keys_keep_inv(v: DbView, q: spec_fn(IdempotencyKeyView) -> bool)
    ensures
        v.inv() ==> (DbView { idempotency_keys: v.idempotency_keys.filter(q), ..v }).inv(),
{
    if v.inv() {
        let key = |k: IdempotencyKeyView| k.key();
        table::lemma_filter_distinct(v.idempotency_keys, q, key);
        let keys = v.idempotency_keys.filter(q);
        assert forall|i: int, j: int| 0 <= i < j < keys.len() implies (#[trigger] keys[i]).key()
            != (#[trigger] keys[j]).key() by {
            assert(key(keys[i]) != key(keys[j]));
        }
    }
}

/// A key that was saved is found with the payment that the saving returned, and
/// saving it again for another payment returns the first one and changes
/// nothing. Keys of other merchants, and other keys, are not touched.
pub proof fn law_key_is_minted_once(
    v: DbView,
    merchant_id: Seq<char>,
    key: Seq<char>,
    payment_id: Seq<char>,
    now: int,
    other_payment: Seq<char>,
    later: int,
    other: (Seq<char>, Seq<char>),
)
    requires
        other != (merchant_id, key),
    ensures
        ({
            let after = v.after_minting(merchant_id, key, payment_id, now);
            &&& after.minted(merchant_id, key) is Some
            &&& v.minted(merchant_id, key) is Some ==> after.minted(merchant_id, key) == v.minted(
                merchant_id,
                key,
            )
            &&& v.minted(merchant_id, key) is None ==> after.minted(merchant_id, key) == Some(
                payment_id,
            )
            &&& after.after_minting(merchant_id, key, other_payment, later) == after
            &&& after.minted(other.0, other.1) == v.minted(other.0, other.1)
        }),
{
    reveal(Seq::filter);
    let keys = v.idempotency_keys;
    let row = IdempotencyKeyView {
        merchant_id,
        idempotency_key: key,
        payment_id,
        created_at: timestamp::timestamp_text(now),
    };
    assert(keys.push(row).drop_last() =~= keys);
}

/// Pruning removes only keys older than the retention, and at most `batch_size`
/// of them; a younger key is still found.
pub proof fn law_pruning_spares_young_keys(
    v: DbView,
    retention_days: int,
    batch_size: int,
    now: int,
    i: int,
)
    requires
        v.inv(),
        0 <= i < v.idempotency_keys.len(),
        !reading::older_than(v.idempotency_keys[i].created_at, retention_days, now),
    ensures
        v.after_key_pruning(retention_days, batch_size, now).idempotency_keys.contains(
            v.idempotency_keys[i],
        ),
{
    let keys = v.idempotency_keys;
    let old_keys = |k: IdempotencyKeyView| reading::older_than(k.created_at, retention_days, now);
    let pruned = v.keys_to_prune(retention_days, batch_size, now);
    let kept = |k: IdempotencyKeyView| !holds_key(pruned, k.key());
    let key = |k: IdempotencyKeyView| k.key();
    assert(table::distinct(keys, key));
    lemma_kept_keys(pruned, key);
    table::lemma_pruned(keys, old_keys, batch_size, key, kept);
    table::lemma_filter_members(keys, kept, keys[i]);
    assert(keys.contains(keys[i]));
}

/// A pruning removes as many keys as are older than the retention, up to
/// `batch_size`, and leaves the rest of these: a backlog drains over several
/// prunings.
pub proof fn law_key_pruning_is_bounded(
    v: DbView,
    retention_days: int,
    batch_size: int,
    now: int,
)
    requires
        v.inv(),
    ensures
        v.idempotency_keys.len() - v.after_key_pruning(
            retention_days,
            batch_size,
            now,
        ).idempotency_keys.len() == v.keys_to_prune(retention_days, batch_size, now).len(),
        batch_size >= 0 ==> v.keys_to_prune(retention_days, batch_size, now).len() <= batch_size,
        v.after_key_pruning(retention_days, batch_size, now).idempotency_keys.filter(
            |k: IdempotencyKeyView| reading::older_than(k.created_at, retention_days, now),
        ) == v.idempotency_keys.filter(
            |k: IdempotencyKeyView| reading::older_than(k.created_at, retention_days, now),
        ).skip(v.keys_to_prune(retention_days, batch_size, now).len() as int),
{
    let keys = v.idempotency_keys;
    let old_keys = |k: IdempotencyKeyView| reading::older_than(k.created_at, retention_days, now);
    let pruned = v.keys_to_prune(retention_days, batch_size, now);
    let kept = |k: IdempotencyKeyView| !holds_key(pruned, k.key());
    let key = |k: IdempotencyKeyView| k.key();
    assert(table::distinct(keys, key));
    lemma_kept_keys(pruned, key);
    table::lemma_pruned(keys, old_keys, batch_size, key, kept);
}

/// What it means that rows hold a key.
proof fn lemma_kept_keys(
    pruned: Seq<IdempotencyKeyView>,
    key: spec_fn(IdempotencyKeyView) -> (Seq<char>, Seq<char>),
)
    requires
        key == (|k: IdempotencyKeyView| k.key()),
    ensures
        forall|x: IdempotencyKeyView|
            holds_key(pruned, #[trigger] x.key()) == (exists|j: int|
                0 <= j < pruned.len() && key(#[trigger] pruned[j]) == key(x)),
{
    assert forall|x: IdempotencyKeyView|
        holds_key(pruned, #[trigger] x.key()) == (exists|j: int|
            0 <= j < pruned.len() && key(#[trigger] pruned[j]) == key(x)) by {
        if holds_key(pruned, x.key()) {
            let j = choose|j: int| 0 <= j < pruned.len() && (#[trigger] pruned[j]).key() == x.key();
            assert(key(pruned[j]) == key(x));
        }
        if exists|j: int| 0 <= j < pruned.len() && key(#[trigger] pruned[j]) == key(x) {
            let j = choose|j: int| 0 <= j < pruned.len() && key(#[trigger] pruned[j]) == key(x);
            assert(pruned[j].key() == x.key());
        }
    }
}

} // verus!

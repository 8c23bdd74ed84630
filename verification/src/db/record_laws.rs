//! What the operations on merchants, API keys, idempotency keys, credits and state
//! do, told by the fields of the stored rows.
use vstd::prelude::*;

use crate::db::accounts;
use crate::db::idempotency;
use crate::db::ledger;
use crate::db::rows::{
    ApiKeyView, IdempotencyKeyView, KvEntryView, MerchantView, ProcessedTransactionView,
};
use crate::db::DbView;
use crate::reading;
use crate::table;
use crate::text;
use crate::timestamp;

verus! {

/// A stored merchant is found by its id, and nothing is found by an id that no
/// merchant has. It is handed out with all its fields.
pub proof fn law_merchant_is_found_by_id(v: DbView, i: int, id: Seq<char>)
    requires
        v.inv(),
    ensures
        0 <= i < v.merchants.len() ==> v.merchant(v.merchants[i].id) == Some(
            MerchantView {
                id: v.merchants[i].id,
                api_key_hash: v.merchants[i].api_key_hash,
                created_at: timestamp::normalized(v.merchants[i].created_at),
            },
        ),
        v.merchant(id) is Some <==> exists|j: int|
            0 <= j < v.merchants.len() && (#[trigger] v.merchants[j]).id == id,
        v.has_merchant(id) <==> v.merchant(id) is Some,
{
    let q = |m: MerchantView| m.id == id;
    table::lemma_filter_nonempty(v.merchants, q);
    if v.merchants.filter(q).len() > 0 {
        let j = choose|j: int| 0 <= j < v.merchants.len() && q(#[trigger] v.merchants[j]);
        assert(v.merchants[j].id == id);
    }
    if 0 <= i < v.merchants.len() {
        let p = |m: MerchantView| m.id == v.merchants[i].id;
        table::lemma_first_is_only(v.merchants, p, i);
    }
}

/// A key hash finds a merchant exactly when one has it, and what it finds is such a
/// merchant.
pub proof fn law_merchant_is_found_by_hash(v: DbView, hash: Seq<char>)
    ensures
        v.merchant_by_hash(hash) is Some <==> exists|j: int|
            0 <= j < v.merchants.len() && (#[trigger] v.merchants[j]).api_key_hash == hash,
        v.merchant_by_hash(hash) matches Some(m) ==> m.api_key_hash == hash && exists|j: int|
            0 <= j < v.merchants.len() && (#[trigger] v.merchants[j]).id == m.id
                && v.merchants[j].api_key_hash == hash && m.created_at == timestamp::normalized(
                v.merchants[j].created_at,
            ),
{
    let q = |m: MerchantView| m.api_key_hash == hash;
    table::lemma_filter_nonempty(v.merchants, q);
    let hits = v.merchants.filter(q);
    if hits.len() > 0 {
        table::lemma_filter_members(v.merchants, q, hits[0]);
        assert(hits.contains(hits[0]));
        let j = choose|j: int| 0 <= j < v.merchants.len() && v.merchants[j] == hits[0];
        assert(v.merchants[j].api_key_hash == hash && v.merchants[j].id == hits[0].id);
    }
}

/// How an API key is handed out: with all its fields, its timestamps in normal form.
pub proof fn law_api_key_is_handed_out_whole(k: ApiKeyView)
    ensures
        ({
            let h = k.normalized();
            &&& h.id == k.id
            &&& h.merchant_id == k.merchant_id
            &&& h.key_hash == k.key_hash
            &&& h.prefix == k.prefix
            &&& h.label == k.label
            &&& h.created_at == timestamp::normalized(k.created_at)
            &&& k.last_used_at is None ==> h.last_used_at is None
            &&& k.last_used_at matches Some(t) ==> h.last_used_at == Some(timestamp::normalized(t))
            &&& k.revoked_at is None ==> h.revoked_at is None
            &&& k.revoked_at matches Some(t) ==> h.revoked_at == Some(timestamp::normalized(t))
        }),
{
}

/// A stored API key is found by its id, revoked or not, and nothing is found by an
/// id that no key has.
pub proof fn law_api_key_is_found_by_id(v: DbView, i: int, id: Seq<char>)
    requires
        v.inv(),
    ensures
        0 <= i < v.api_keys.len() ==> v.api_key(v.api_keys[i].id) == Some(
            v.api_keys[i].normalized(),
        ),
        v.api_key(id) is Some <==> exists|j: int|
            0 <= j < v.api_keys.len() && (#[trigger] v.api_keys[j]).id == id,
        v.has_api_key(id) <==> v.api_key(id) is Some,
{
    let q = |k: ApiKeyView| k.id == id;
    table::lemma_filter_nonempty(v.api_keys, q);
    if v.api_keys.filter(q).len() > 0 {
        let j = choose|j: int| 0 <= j < v.api_keys.len() && q(#[trigger] v.api_keys[j]);
        assert(v.api_keys[j].id == id);
    }
    if 0 <= i < v.api_keys.len() {
        let p = |k: ApiKeyView| k.id == v.api_keys[i].id;
        table::lemma_first_is_only(v.api_keys, p, i);
    }
}

/// A hash finds an API key exactly when one has it, revoked or not, and what it
/// finds is such a key.
pub proof fn law_api_key_is_found_by_hash(v: DbView, hash: Seq<char>)
    ensures
        v.api_key_by_hash(hash) is Some <==> exists|j: int|
            0 <= j < v.api_keys.len() && (#[trigger] v.api_keys[j]).key_hash == hash,
        v.api_key_by_hash(hash) matches Some(k) ==> exists|j: int|
            0 <= j < v.api_keys.len() && (#[trigger] v.api_keys[j]).key_hash == hash && k
                == v.api_keys[j].normalized(),
{
    let q = |k: ApiKeyView| k.key_hash == hash;
    table::lemma_filter_nonempty(v.api_keys, q);
    let hits = v.api_keys.filter(q);
    if hits.len() > 0 {
        table::lemma_filter_members(v.api_keys, q, hits[0]);
        assert(hits.contains(hits[0]));
        let j = choose|j: int| 0 <= j < v.api_keys.len() && v.api_keys[j] == hits[0];
        assert(v.api_keys[j].key_hash == hash);
    }
}

/// A merchant's API keys are listed newest first, revoked or not: each of them, in
/// the form in which it is handed out, and no other.
pub proof fn law_api_keys_are_listed_newest_first(v: DbView, merchant_id: Seq<char>)
    ensures
        ({
            let listed = table::sorted(
                v.api_keys.filter(|k: ApiKeyView| k.merchant_id == merchant_id),
                accounts::newest_key_first(),
            );
            &&& v.api_keys_of(merchant_id) == listed.map_values(|k: ApiKeyView| k.normalized())
            &&& listed.len() == v.api_keys.filter(
                |k: ApiKeyView| k.merchant_id == merchant_id,
            ).len()
            &&& forall|k: ApiKeyView| #[trigger]
                listed.contains(k) <==> v.api_keys.contains(k) && k.merchant_id == merchant_id
            &&& forall|i: int, j: int|
                0 <= i < j < listed.len() ==> !text::lex_lt(
                    (#[trigger] listed[i]).created_at,
                    (#[trigger] listed[j]).created_at,
                )
        }),
{
    let p = |k: ApiKeyView| k.merchant_id == merchant_id;
    let before = accounts::newest_key_first();
    let rows = v.api_keys.filter(p);
    let listed = table::sorted(rows, before);
    assert(table::is_order(before)) by {
        assert forall|a: ApiKeyView, b: ApiKeyView| #[trigger] before(a, b) implies !before(
            b,
            a,
        ) by {
            if before(b, a) {
                text::lemma_lex_transitive(a.created_at, b.created_at, a.created_at);
                text::lemma_lex_irreflexive(a.created_at);
            }
        }
        assert forall|a: ApiKeyView, b: ApiKeyView, c: ApiKeyView|
            !(#[trigger] before(a, b)) && !(#[trigger] before(b, c)) implies !before(a, c) by {
            if before(a, c) {
                text::lemma_lex_total(b.created_at, c.created_at);
                if text::lex_lt(b.created_at, c.created_at) {
                    text::lemma_lex_transitive(b.created_at, c.created_at, a.created_at);
                }
            }
        }
    }
    table::lemma_sorted_in_order(rows, before);
    table::lemma_sorted_same_rows(rows, before);
    assert forall|k: ApiKeyView| #[trigger]
        listed.contains(k) <==> v.api_keys.contains(k) && k.merchant_id == merchant_id by {
        table::lemma_filter_members(v.api_keys, p, k);
    }
    assert forall|i: int, j: int| 0 <= i < j < listed.len() implies !text::lex_lt(
        (#[trigger] listed[i]).created_at,
        (#[trigger] listed[j]).created_at,
    ) by {
        assert(!before(listed[j], listed[i]));
    }
}

/// What the use of a key writes: the current time, at every key with the hash and no
/// other. Every other field and every other table stays.
pub proof fn law_touch_writes_one_field(v: DbView, key_hash: Seq<char>, now: int, i: int)
    requires
        0 <= i < v.api_keys.len(),
    ensures
        ({
            let after = v.after_touch(key_hash, now);
            let k = v.api_keys[i];
            &&& after.api_keys.len() == v.api_keys.len()
            &&& after == (DbView { api_keys: after.api_keys, ..v })
            &&& k.key_hash != key_hash ==> after.api_keys[i] == k
            &&& k.key_hash == key_hash ==> after.api_keys[i] == (ApiKeyView {
                last_used_at: Some(timestamp::timestamp_text(now)),
                ..k
            })
        }),
{
}

/// What a revocation writes: the current time, at a key with the id that belongs to
/// the merchant and was not revoked before. Every other field, every other key and
/// every other table stays. It succeeds exactly where there is such a key.
pub proof fn law_revocation_writes_one_field(
    v: DbView,
    id: Seq<char>,
    merchant_id: Seq<char>,
    now: int,
    i: int,
)
    requires
        0 <= i < v.api_keys.len(),
    ensures
        ({
            let after = v.after_revocation(id, merchant_id, now);
            let k = v.api_keys[i];
            let open = k.id == id && k.merchant_id == merchant_id && k.revoked_at is None;
            &&& after.api_keys.len() == v.api_keys.len()
            &&& after == (DbView { api_keys: after.api_keys, ..v })
            &&& !open ==> after.api_keys[i] == k
            &&& open ==> v.can_revoke(id, merchant_id) && after.api_keys[i] == (ApiKeyView {
                revoked_at: Some(timestamp::timestamp_text(now)),
                ..k
            })
        }),
        v.can_revoke(id, merchant_id) ==> exists|j: int|
            0 <= j < v.api_keys.len() && (#[trigger] v.api_keys[j]).id == id
                && v.api_keys[j].merchant_id == merchant_id && v.api_keys[j].revoked_at is None,
{
    if v.can_revoke(id, merchant_id) {
        let j = choose|j: int|
            0 <= j < v.api_keys.len() && accounts::revocable(
                #[trigger] v.api_keys[j],
                id,
                merchant_id,
            );
        assert(v.api_keys[j].id == id);
    }
    let k = v.api_keys[i];
    if k.id == id && k.merchant_id == merchant_id && k.revoked_at is None {
        assert(accounts::revocable(v.api_keys[i], id, merchant_id));
    }
}

/// A merchant's active keys are those that belong to it and were not revoked.
pub proof fn law_active_keys(v: DbView, merchant_id: Seq<char>)
    ensures
        v.active_keys(merchant_id) == v.api_keys.filter(
            |k: ApiKeyView| k.revoked_at is None && k.merchant_id == merchant_id,
        ).len(),
{
    table::lemma_filter_same(
        v.api_keys,
        |k: ApiKeyView| k.merchant_id == merchant_id && k.revoked_at is None,
        |k: ApiKeyView| k.revoked_at is None && k.merchant_id == merchant_id,
    );
}

/// A stored idempotency key finds its payment by the merchant and the key together,
/// and nothing is found for a pair that is not stored.
pub proof fn law_key_finds_its_payment(
    v: DbView,
    i: int,
    merchant_id: Seq<char>,
    key: Seq<char>,
)
    requires
        v.inv(),
    ensures
        0 <= i < v.idempotency_keys.len() ==> v.minted(
            v.idempotency_keys[i].merchant_id,
            v.idempotency_keys[i].idempotency_key,
        ) == Some(v.idempotency_keys[i].payment_id),
        v.minted(merchant_id, key) is Some <==> exists|j: int|
            0 <= j < v.idempotency_keys.len() && (#[trigger] v.idempotency_keys[j]).merchant_id
                == merchant_id && v.idempotency_keys[j].idempotency_key == key,
{
    let s = v.idempotency_keys;
    let q = |k: IdempotencyKeyView| k.key() == (merchant_id, key);
    table::lemma_filter_nonempty(s, q);
    if s.filter(q).len() > 0 {
        let j = choose|j: int| 0 <= j < s.len() && q(#[trigger] s[j]);
        assert(s[j].merchant_id == merchant_id);
    }
    if exists|j: int|
        0 <= j < s.len() && (#[trigger] s[j]).merchant_id == merchant_id && s[j].idempotency_key
            == key {
        let j = choose|j: int|
            0 <= j < s.len() && (#[trigger] s[j]).merchant_id == merchant_id
                && s[j].idempotency_key == key;
        assert(q(s[j]));
    }
    if 0 <= i < s.len() {
        let pair = (s[i].merchant_id, s[i].idempotency_key);
        let p = |k: IdempotencyKeyView| k.key() == (pair.0, pair.1);
        assert forall|j: int| 0 <= j < s.len() && j != i implies !p(#[trigger] s[j]) by {
            if j < i {
                assert(s[j].key() != s[i].key());
            } else {
                assert(s[i].key() != s[j].key());
            }
        }
        table::lemma_first_is_only(s, p, i);
    }
}

/// What saving an idempotency key writes: one row with the pair, the payment and the
/// current time, behind those that are there, where the pair is not stored; nothing
/// where it is.
pub proof fn law_saving_a_key_appends_it(
    v: DbView,
    merchant_id: Seq<char>,
    key: Seq<char>,
    payment_id: Seq<char>,
    now: int,
)
    ensures
        ({
            let after = v.after_minting(merchant_id, key, payment_id, now);
            let n = v.idempotency_keys.len() as int;
            &&& v.minted(merchant_id, key) is Some ==> after == v
            &&& v.minted(merchant_id, key) is None ==> {
                &&& after == (DbView { idempotency_keys: after.idempotency_keys, ..v })
                &&& after.idempotency_keys.len() == n + 1
                &&& after.idempotency_keys.take(n) == v.idempotency_keys
                &&& after.idempotency_keys[n].merchant_id == merchant_id
                &&& after.idempotency_keys[n].idempotency_key == key
                &&& after.idempotency_keys[n].payment_id == payment_id
                &&& after.idempotency_keys[n].created_at == timestamp::timestamp_text(now)
            }
        }),
{
    let after = v.after_minting(merchant_id, key, payment_id, now);
    if v.minted(merchant_id, key) is None {
        assert(after.idempotency_keys.take(v.idempotency_keys.len() as int)
            =~= v.idempotency_keys);
    }
}

/// What a pruning of idempotency keys without limit removes: exactly those created
/// more than `retention_days` days ago.
pub proof fn law_key_pruning_removes(
    v: DbView,
    retention_days: int,
    batch_size: int,
    now: int,
    i: int,
    created: int,
)
    requires
        v.inv(),
        0 <= i < v.idempotency_keys.len(),
        timestamp::in_range(created),
        v.idempotency_keys[i].created_at == timestamp::timestamp_text(created),
    ensures
        ({
            let k = v.idempotency_keys[i];
            let after = v.after_key_pruning(retention_days, batch_size, now);
            let old = now - created > retention_days * 86400;
            &&& after == (DbView { idempotency_keys: after.idempotency_keys, ..v })
            &&& !old ==> after.idempotency_keys.contains(k)
            &&& batch_size < 0 && old ==> !after.idempotency_keys.contains(k)
            &&& batch_size >= v.idempotency_keys.len() && old
                ==> !after.idempotency_keys.contains(k)
        }),
{
    reading::lemma_text_reads_back(created, now);
    let all = v.idempotency_keys;
    let k = all[i];
    let p = |k: IdempotencyKeyView| reading::older_than(k.created_at, retention_days, now);
    let pruned = v.keys_to_prune(retention_days, batch_size, now);
    let after = v.after_key_pruning(retention_days, batch_size, now).idempotency_keys;
    if now - created > retention_days * 86400 {
        idempotency::law_key_pruning_is_bounded(v, retention_days, batch_size, now);
        all.lemma_filter_len(p);
        if batch_size < 0 || batch_size >= all.len() {
            assert(pruned =~= all.filter(p));
            assert(after.filter(p).len() == 0);
            table::lemma_filter_members(after, p, k);
        }
    } else {
        idempotency::law_pruning_spares_young_keys(v, retention_days, batch_size, now, i);
    }
}

/// A limited pruning removes as many idempotency keys as are old, up to its limit.
pub proof fn law_key_pruning_takes_as_many_as_it_may(
    v: DbView,
    retention_days: int,
    batch_size: int,
    now: int,
)
    requires
        v.inv(),
    ensures
        ({
            let old = v.idempotency_keys.filter(
                |k: IdempotencyKeyView|
                    reading::unix_of_text(k.created_at, now) matches Some(t) && now - t
                        > retention_days * 86400,
            ).len();
            v.idempotency_keys.len() - v.after_key_pruning(
                retention_days,
                batch_size,
                now,
            ).idempotency_keys.len() == (if 0 <= batch_size < old {
                batch_size
            } else {
                old as int
            })
        }),
{
    idempotency::law_key_pruning_is_bounded(v, retention_days, batch_size, now);
    table::lemma_filter_same(
        v.idempotency_keys,
        |k: IdempotencyKeyView| reading::older_than(k.created_at, retention_days, now),
        |k: IdempotencyKeyView|
            reading::unix_of_text(k.created_at, now) matches Some(t) && now - t > retention_days
                * 86400,
    );
}

/// What a credit writes: one row with the payment, the transaction and the amount,
/// behind those that are there, where the transaction was not credited to the
/// payment; nothing where it was.
pub proof fn law_credit_appends_a_row(
    v: DbView,
    payment_id: Seq<char>,
    tx_hash: Seq<char>,
    amount: int,
)
    ensures
        ({
            let after = v.after_credit(payment_id, tx_hash, amount);
            let n = v.processed_transactions.len() as int;
            let known = exists|i: int|
                0 <= i < n && (#[trigger] v.processed_transactions[i]).payment_id == payment_id
                    && v.processed_transactions[i].tx_hash == tx_hash;
            &&& v.is_credited(payment_id, tx_hash) <==> known
            &&& known ==> after == v
            &&& !known ==> {
                &&& after == (DbView { processed_transactions: after.processed_transactions, ..v })
                &&& after.processed_transactions.len() == n + 1
                &&& after.processed_transactions.take(n) == v.processed_transactions
                &&& after.processed_transactions[n].payment_id == payment_id
                &&& after.processed_transactions[n].tx_hash == tx_hash
                &&& after.processed_transactions[n].amount_stroops == amount
            }
        }),
{
    let after = v.after_credit(payment_id, tx_hash, amount);
    let s = v.processed_transactions;
    if v.is_credited(payment_id, tx_hash) {
        let i = choose|i: int|
            0 <= i < s.len() && (#[trigger] s[i]).key() == (payment_id, tx_hash);
        assert(s[i].payment_id == payment_id && s[i].tx_hash == tx_hash);
    } else {
        assert(after.processed_transactions.take(s.len() as int) =~= s);
        assert forall|i: int| 0 <= i < s.len() && (#[trigger] s[i]).payment_id
            == payment_id implies s[i].tx_hash != tx_hash by {
            assert(s[i].key() != (payment_id, tx_hash));
        }
    }
}

/// A payment without credits has nothing, and every credit counts: what two runs of
/// rows credit is what they credit one behind the other.
pub proof fn law_credits_add_up(
    a: Seq<ProcessedTransactionView>,
    b: Seq<ProcessedTransactionView>,
    payment_id: Seq<char>,
)
    ensures
        ledger::credited_by(Seq::empty(), payment_id) == 0,
        ledger::credited_by(a + b, payment_id) == ledger::credited_by(a, payment_id)
            + ledger::credited_by(b, payment_id),
    decreases b.len(),
{
    if b.len() > 0 {
        law_credits_add_up(a, b.drop_last(), payment_id);
        assert((a + b).drop_last() =~= a + b.drop_last());
    } else {
        assert(a + b =~= a);
    }
}

/// One row credits its amount to its payment, and nothing to another.
pub proof fn law_row_credits_its_payment(t: ProcessedTransactionView, other: Seq<char>)
    requires
        other != t.payment_id,
    ensures
        ledger::credited_by(seq![t], t.payment_id) == t.amount_stroops,
        ledger::credited_by(seq![t], other) == 0,
{
    assert(seq![t].drop_last() =~= Seq::empty());
    assert(ledger::credited_by(seq![t].drop_last(), t.payment_id) == 0);
    assert(ledger::credited_by(seq![t].drop_last(), other) == 0);
}

/// A stored entry has its value, and a key without an entry has none.
pub proof fn law_entry_has_its_value(v: DbView, i: int, key: Seq<char>)
    requires
        v.inv(),
    ensures
        0 <= i < v.kv_state.len() ==> v.kv(v.kv_state[i].key) == Some(v.kv_state[i].value),
        v.kv(key) is Some <==> exists|j: int|
            0 <= j < v.kv_state.len() && (#[trigger] v.kv_state[j]).key == key,
{
    let q = |e: KvEntryView| e.key == key;
    table::lemma_filter_nonempty(v.kv_state, q);
    if v.kv_state.filter(q).len() > 0 {
        let j = choose|j: int| 0 <= j < v.kv_state.len() && q(#[trigger] v.kv_state[j]);
        assert(v.kv_state[j].key == key);
    }
    if 0 <= i < v.kv_state.len() {
        let p = |e: KvEntryView| e.key == v.kv_state[i].key;
        table::lemma_first_is_only(v.kv_state, p, i);
    }
}

/// What setting a key writes: the value and the current time, in the entry of the
/// key, or in a new one behind those that are there. Every other entry and every
/// other table stays.
pub proof fn law_setting_writes_one_entry(
    v: DbView,
    key: Seq<char>,
    value: Seq<char>,
    now: int,
    i: int,
)
    ensures
        ({
            let after = v.after_set(key, value, now);
            let n = v.kv_state.len() as int;
            let entry = KvEntryView { key, value, updated_at: timestamp::timestamp_text(now) };
            &&& after == (DbView { kv_state: after.kv_state, ..v })
            &&& after.kv_state.len() == (if v.kv(key) is Some {
                n
            } else {
                n + 1
            })
            &&& 0 <= i < n ==> after.kv_state[i] == (if v.kv_state[i].key == key {
                entry
            } else {
                v.kv_state[i]
            })
            &&& v.kv(key) is None ==> after.kv_state[n] == entry
        }),
{
    let q = |e: KvEntryView| e.key == key;
    table::lemma_filter_nonempty(v.kv_state, q);
    if v.kv(key) is None && 0 <= i < v.kv_state.len() {
        assert(!q(v.kv_state[i]));
    }
}

} // verus!

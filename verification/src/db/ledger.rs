//! Transactions credited to payments.
use vstd::prelude::*;

use crate::db::rows::{ProcessedTransaction, ProcessedTransactionView};
use crate::db::{Db, DbError, DbView};
use crate::table;
use crate::table::Condition;
use crate::text;

verus! {

/// The sum of what transactions credited to a payment.
pub open spec fn credited_by(s: Seq<ProcessedTransactionView>, payment_id: Seq<char>) -> int
    decreases s.len(),
{
    if s.len() == 0 {
        0
    } else {
        credited_by(s.drop_last(), payment_id) + (if s.last().payment_id == payment_id {
            s.last().amount_stroops
        } else {
            0
        })
    }
}

impl DbView {
    /// Whether a transaction was credited to a payment.
    pub open spec fn is_credited(self, payment_id: Seq<char>, tx_hash: Seq<char>) -> bool {
        exists|i: int|
            0 <= i < self.processed_transactions.len() && (
            #[trigger] self.processed_transactions[i]).key() == (payment_id, tx_hash)
    }

    /// The stroops credited to a payment.
    pub open spec fn credited(self, payment_id: Seq<char>) -> int {
        credited_by(self.processed_transactions, payment_id)
    }

    /// The store after a transaction was credited to a payment; one that was
    /// credited before is not credited again.
    pub open spec fn after_credit(
        self,
        payment_id: Seq<char>,
        tx_hash: Seq<char>,
        amount_stroops: int,
    ) -> DbView {
        if self.is_credited(payment_id, tx_hash) {
            self
        } else {
            DbView {
                processed_transactions: self.processed_transactions.push(
                    ProcessedTransactionView { payment_id, tx_hash, amount_stroops },
                ),
                ..self
            }
        }
    }
}

struct ByTransaction<'a> {
    payment_id: &'a str,
    tx_hash: &'a str,
}

impl<'a> Condition<ProcessedTransaction> for ByTransaction<'a> {
    closed spec fn holds(&self, row: ProcessedTransactionView) -> bool {
        row.key() == (self.payment_id@, self.tx_hash@)
    }

    fn check(&self, row: &ProcessedTransaction) -> (r: bool) {
        text::str_eq(row.payment_id.as_str(), self.payment_id) && text::str_eq(
            row.tx_hash.as_str(),
            self.tx_hash,
        )
    }
}

/// Credits a transaction to a payment, unless it was credited before.
pub fn credit(pool: &mut Db, payment_id: &str, tx_hash: &str, amount_stroops: i64)
    ensures
        final(pool)@ == old(pool)@.after_credit(payment_id@, tx_hash@, amount_stroops as int),
        old(pool)@.inv() ==> final(pool)@.inv(),
{
    let c = ByTransaction { payment_id, tx_hash };
    let n: usize = table::count(&pool.processed_transactions, &c);
    let ghost before = pool@.processed_transactions;
    proof {
        let p = |t: ProcessedTransactionView| t.key() == (payment_id@, tx_hash@);
        assert(table::predicate::<ProcessedTransaction, ByTransaction>(c) =~= p);
        table::lemma_filter_nonempty(before, p);
    }
    if n == 0 {
        let row = ProcessedTransaction {
            payment_id: payment_id.to_owned(),
            tx_hash: tx_hash.to_owned(),
            amount_stroops,
        };
        let ghost added = row@;
        pool.processed_transactions.push(row);
        assert(pool@.processed_transactions =~= before.push(added));
    }
}

/// Records that a transaction was credited to a payment, so that seeing it again
/// is a no-op, and returns the cumulative stroops credited to the payment,
/// including this transaction.
pub fn record_processed_transaction(
    pool: &mut Db,
    payment_id: &str,
    tx_hash: &str,
    amount_stroops: i64,
) -> (r: Result<i64, DbError>)
    ensures
        final(pool)@ == old(pool)@.after_credit(payment_id@, tx_hash@, amount_stroops as int),
        match r {
            Ok(total) => total == final(pool)@.credited(payment_id@),
            Err(e) => e == DbError::IntegerOverflow && !(i64::MIN <= final(pool)@.credited(
                payment_id@,
            ) <= i64::MAX),
        },
        old(pool)@.inv() ==> final(pool)@.inv(),
{
    credit(pool, payment_id, tx_hash, amount_stroops);
    let ghost all = pool@.processed_transactions;
    let mut total: i128 = 0;
    let mut i: usize = 0;
    assert(all.take(0).len() == 0);
    while i < pool.processed_transactions.len()
        invariant
            all == table::views(pool.processed_transactions@),
            i <= pool.processed_transactions.len(),
            total == credited_by(all.take(i as int), payment_id@),
            -0x8000_0000_0000_0000 * i <= total <= 0x7fff_ffff_ffff_ffff * i,
        decreases pool.processed_transactions.len() - i,
    {
        proof {
            assert(all.take(i + 1).drop_last() =~= all.take(i as int));
            assert(all.take(i + 1).last() == all[i as int]);
        }
        let row = &pool.processed_transactions[i];
        assert(row@ == all[i as int]);
        if text::str_eq(row.payment_id.as_str(), payment_id) {
            total = total + row.amount_stroops as i128;
        }
        i += 1;
    }
    assert(all.take(i as int) =~= all);
    if i64::MIN as i128 <= total && total <= i64::MAX as i128 {
        Ok(total as i64)
    } else {
        Err(DbError::IntegerOverflow)
    }
}

/// Crediting a transaction twice is crediting it once, whatever the second
/// amount is.
pub proof fn law_transaction_is_credited_once(
    v: DbView,
    payment_id: Seq<char>,
    tx_hash: Seq<char>,
    amount: int,
    again: int,
)
    ensures
        v.after_credit(payment_id, tx_hash, amount).is_credited(payment_id, tx_hash),
        v.after_credit(payment_id, tx_hash, amount).after_credit(payment_id, tx_hash, again)
            == v.after_credit(payment_id, tx_hash, amount),
{
    if !v.is_credited(payment_id, tx_hash) {
        let after = v.after_credit(payment_id, tx_hash, amount);
        let n = v.processed_transactions.len() as int;
        assert(after.processed_transactions[n].key() == (payment_id, tx_hash));
    }
}

/// A new transaction adds its amount to what its payment was credited, and
/// nothing to any other payment.
pub proof fn law_credit_adds_the_amount(
    v: DbView,
    payment_id: Seq<char>,
    tx_hash: Seq<char>,
    amount: int,
    other: Seq<char>,
)
    requires
        !v.is_credited(payment_id, tx_hash),
        other != payment_id,
    ensures
        v.after_credit(payment_id, tx_hash, amount).credited(payment_id) == v.credited(payment_id)
            + amount,
        v.after_credit(payment_id, tx_hash, amount).credited(other) == v.credited(other),
{
    let after = v.after_credit(payment_id, tx_hash, amount);
    assert(after.processed_transactions.drop_last() =~= v.processed_transactions);
}

} // verus!

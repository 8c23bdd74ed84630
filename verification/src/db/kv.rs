//! Key-value state, such as the listener's cursor.
use vstd::prelude::*;

use crate::db::rows::{KvEntry, KvEntryView};
use crate::db::{Db, DbView};
use crate::table;
use crate::table::{Change, Condition};
use crate::text;
use crate::timestamp;
use crate::timestamp::Moment;

verus! {

impl DbView {
    /// The value of a key.
    pub open spec fn kv(self, key: Seq<char>) -> Option<Seq<char>> {
        match table::first(self.kv_state, |e: KvEntryView| e.key == key) {
            Some(e) => Some(e.value),
            None => None,
        }
    }

    /// The store after a key was set: the entry is replaced, or added.
    pub open spec fn after_set(self, key: Seq<char>, value: Seq<char>, now: int) -> DbView {
        let entry = KvEntryView { key, value, updated_at: timestamp::timestamp_text(now) };
        DbView {
            kv_state: if self.kv(key) is Some {
                table::edited(
                    self.kv_state,
                    |e: KvEntryView| e.key == key,
                    |e: KvEntryView| entry,
                )
            } else {
                self.kv_state.push(entry)
            },
            ..self
        }
    }
}

struct Entry<'a> {
    key: &'a str,
    value: &'a str,
    now: String,
}

impl<'a> Condition<KvEntry> for Entry<'a> {
    closed spec fn holds(&self, row: KvEntryView) -> bool {
        row.key == self.key@
    }

    fn check(&self, row: &KvEntry) -> (r: bool) {
        text::str_eq(row.key.as_str(), self.key)
    }
}

impl<'a> Change<KvEntry> for Entry<'a> {
    closed spec fn changed(&self, row: KvEntryView) -> KvEntryView {
        KvEntryView { key: self.key@, value: self.value@, updated_at: self.now@ }
    }

    fn apply(&self, row: &KvEntry) -> (r: KvEntry) {
        KvEntry {
            key: self.key.to_owned(),
            value: self.value.to_owned(),
            updated_at: self.now.clone(),
        }
    }
}

/// The value of a key.
pub fn get_kv(pool: &Db, key: &str) -> (r: Option<String>)
    ensures
        text::opt_view(r) == pool@.kv(key@),
{
    let c = Entry { key, value: "", now: String::new() };
    assert(table::predicate::<KvEntry, Entry>(c) =~= (|e: KvEntryView| e.key == key@));
    match table::find(&pool.kv_state, &c) {
        Some(e) => Some(e.value),
        None => None,
    }
}

/// Sets the value of a key.
pub fn set_kv(pool: &mut Db, key: &str, value: &str, now: &Moment)
    ensures
        final(pool)@ == old(pool)@.after_set(key@, value@, now@),
        old(pool)@.inv() ==> final(pool)@.inv(),
{
    let c = Entry { key, value, now: now.text() };
    let ghost p = |e: KvEntryView| e.key == key@;
    let ghost entry = KvEntryView {
        key: key@,
        value: value@,
        updated_at: timestamp::timestamp_text(now@),
    };
    let ghost before = pool@.kv_state;
    proof {
        assert(table::predicate::<KvEntry, Entry>(c) =~= p);
        assert(table::change::<KvEntry, Entry>(c) =~= (|e: KvEntryView| entry));
        table::lemma_filter_nonempty(before, p);
    }
    let n: usize = table::edit(&mut pool.kv_state, &c);
    if n == 0 {
        assert(pool@.kv_state =~= before) by {
            assert forall|i: int| 0 <= i < before.len() implies !p(#[trigger] before[i]) by {}
        }
        let row = KvEntry {
            key: key.to_owned(),
            value: value.to_owned(),
            updated_at: now.text(),
        };
        pool.kv_state.push(row);
        assert(pool@.kv_state =~= before.push(entry));
        assert forall|i: int| 0 <= i < before.len() implies (#[trigger] before[i]).key != key@ by {
            assert(!p(before[i]));
        }
    } else {
        proof {
            assert(pool@ == old(pool)@.after_set(key@, value@, now@));
            if old(pool)@.inv() {
                let after = pool@.kv_state;
                assert forall|i: int, j: int| 0 <= i < j < after.len() implies (
                #[trigger] after[i]).key != (#[trigger] after[j]).key by {
                    assert(before[i].key != before[j].key);
                }
            }
        }
    }
}

/// Reading a key gives back what was last written to it; other keys keep their
/// values.
pub proof fn law_kv_reads_back(
    v: DbView,
    key: Seq<char>,
    value: Seq<char>,
    now: int,
    other: Seq<char>,
)
    requires
        other != key,
    ensures
        v.after_set(key, value, now).kv(key) == Some(value),
        v.after_set(key, value, now).kv(other) == v.kv(other),
{
    let entry = KvEntryView { key, value, updated_at: timestamp::timestamp_text(now) };
    let p = |e: KvEntryView| e.key == key;
    let q = |e: KvEntryView| e.key == other;
    let f = |e: KvEntryView| entry;
    reveal(Seq::filter);
    if v.kv(key) is Some {
        let after = table::edited(v.kv_state, p, f);
        lemma_replaced(v.kv_state, p, q, f, entry);
        assert(after.filter(p).len() == v.kv_state.filter(p).len());
        assert(after.filter(p)[0] == entry);
    } else {
        assert(v.kv_state.push(entry).drop_last() =~= v.kv_state);
    }
}

proof fn lemma_replaced(
    s: Seq<KvEntryView>,
    p: spec_fn(KvEntryView) -> bool,
    q: spec_fn(KvEntryView) -> bool,
    f: spec_fn(KvEntryView) -> KvEntryView,
    entry: KvEntryView,
)
    requires
        p(entry),
        !q(entry),
        forall|e: KvEntryView| #[trigger] f(e) == entry,
        forall|e: KvEntryView| #[trigger] p(e) ==> !q(e),
    ensures
        table::edited(s, p, f).filter(p).len() == s.filter(p).len(),
        forall|i: int|
            0 <= i < s.filter(p).len() ==> #[trigger] table::edited(s, p, f).filter(p)[i] == entry,
        table::edited(s, p, f).filter(q) == s.filter(q),
    decreases s.len(),
{
    reveal(Seq::filter);
    if s.len() > 0 {
        lemma_replaced(s.drop_last(), p, q, f, entry);
        let after = table::edited(s, p, f);
        assert(after.drop_last() =~= table::edited(s.drop_last(), p, f));
        assert(after.last() == if p(s.last()) {
            f(s.last())
        } else {
            s.last()
        });
    } else {
        assert(table::edited(s, p, f) =~= s);
    }
}

} // verus!

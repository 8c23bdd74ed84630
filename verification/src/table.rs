//! Tables as sequences of rows: what a query selects, in which order, and what
//! an update changes.
use vstd::prelude::*;

verus! {

/// The contents of rows.
pub open spec fn views<T: View>(s: Seq<T>) -> Seq<T::V> {
    Seq::new(s.len(), |i: int| s[i]@)
}

/// The content of an optional row.
pub open spec fn opt_row<T: View>(row: Option<T>) -> Option<T::V> {
    match row {
        Some(r) => Some(r@),
        None => None,
    }
}

/// The first row that satisfies a condition.
pub open spec fn first<V>(s: Seq<V>, p: spec_fn(V) -> bool) -> Option<V> {
    let hits = s.filter(p);
    if hits.len() > 0 {
        Some(hits[0])
    } else {
        None
    }
}

/// The rows with every one that satisfies a condition changed.
pub open spec fn edited<V>(s: Seq<V>, p: spec_fn(V) -> bool, f: spec_fn(V) -> V) -> Seq<V> {
    Seq::new(
        s.len(),
        |i: int|
            if p(s[i]) {
                f(s[i])
            } else {
                s[i]
            },
    )
}

/// `s` with `x` behind every row that it does not come before.
pub open spec fn inserted<V>(s: Seq<V>, before: spec_fn(V, V) -> bool, x: V) -> Seq<V>
    decreases s.len(),
{
    if s.len() > 0 && before(x, s.last()) {
        inserted(s.drop_last(), before, x).push(s.last())
    } else {
        s.push(x)
    }
}

/// The rows in order; rows of which neither comes before the other keep their
/// places.
pub open spec fn sorted<V>(s: Seq<V>, before: spec_fn(V, V) -> bool) -> Seq<V>
    decreases s.len(),
{
    if s.len() == 0 {
        s
    } else {
        inserted(sorted(s.drop_last(), before), before, s.last())
    }
}

/// A page: at most `limit` rows, or all where `limit` is negative, behind the
/// first `offset`.
pub open spec fn page<V>(s: Seq<V>, offset: int, limit: int) -> Seq<V> {
    let from = if offset < 0 {
        0
    } else if offset > s.len() {
        s.len() as int
    } else {
        offset
    };
    let rest = s.skip(from);
    if 0 <= limit < rest.len() {
        rest.take(limit)
    } else {
        rest
    }
}

/// A number of rows as a signed 64-bit count, which clips at its largest value.
pub open spec fn row_count(n: nat) -> int {
    if n <= i64::MAX {
        n as int
    } else {
        i64::MAX as int
    }
}

/// A number of rows as a signed 64-bit count.
pub fn signed_count(n: usize) -> (r: i64)
    ensures
        r == row_count(n as nat),
{
    if n as u64 <= i64::MAX as u64 {
        n as i64
    } else {
        i64::MAX
    }
}

/// A row that can be copied.
pub trait Row: View + Sized {
    fn copy(&self) -> (r: Self)
        ensures
            r@ == self@,
    ;
}

/// A row that is handed out in another form than it is stored in.
pub trait Stored: Row {
    spec fn handed_out(row: Self::V) -> Self::V;

    fn hand_out(&self) -> (r: Self)
        ensures
            r@ == Self::handed_out(self@),
    ;
}

/// A condition on rows.
pub trait Condition<T: View> {
    spec fn holds(&self, row: T::V) -> bool;

    fn check(&self, row: &T) -> (r: bool)
        ensures
            r == self.holds(row@),
    ;
}

/// A change of the rows that satisfy a condition.
pub trait Change<T: View>: Condition<T> {
    spec fn changed(&self, row: T::V) -> T::V;

    fn apply(&self, row: &T) -> (r: T)
        ensures
            r@ == self.changed(row@),
    ;
}

/// An order of rows.
pub trait RowOrder<T: View> {
    spec fn before(a: T::V, b: T::V) -> bool;

    fn is_before(a: &T, b: &T) -> (r: bool)
        ensures
            r == Self::before(a@, b@),
    ;
}

/// A condition as a predicate.
pub open spec fn predicate<T: View, C: Condition<T>>(c: C) -> spec_fn(T::V) -> bool {
    |row: T::V| c.holds(row)
}

/// A change as a function.
pub open spec fn change<T: View, C: Change<T>>(c: C) -> spec_fn(T::V) -> T::V {
    |row: T::V| c.changed(row)
}

/// An order as a relation.
pub open spec fn relation<T: View, O: RowOrder<T>>() -> spec_fn(T::V, T::V) -> bool {
    |a: T::V, b: T::V| O::before(a, b)
}

/// How rows are handed out, as a function.
pub open spec fn form<T: Stored>() -> spec_fn(T::V) -> T::V {
    |row: T::V| T::handed_out(row)
}

/// One more row extends what a filter keeps.
pub proof fn lemma_filter_step<V>(s: Seq<V>, p: spec_fn(V) -> bool, i: int)
    requires
        0 <= i < s.len(),
    ensures
        s.take(i + 1).filter(p) == (if p(s[i]) {
            s.take(i).filter(p).push(s[i])
        } else {
            s.take(i).filter(p)
        }),
{
    reveal(Seq::filter);
    assert(s.take(i + 1).drop_last() =~= s.take(i));
    assert(s.take(i + 1).last() == s[i]);
}

/// What nothing filters.
pub proof fn lemma_filter_none<V>(s: Seq<V>, p: spec_fn(V) -> bool)
    ensures
        s.take(0).filter(p) == Seq::<V>::empty(),
{
    reveal(Seq::filter);
    assert(s.take(0).len() == 0);
    assert(s.take(0).filter(p) =~= Seq::<V>::empty());
}

/// Copies of the rows that satisfy a condition.
pub fn select<T: Row, C: Condition<T>>(rows: &Vec<T>, c: &C) -> (r: Vec<T>)
    ensures
        views(r@) == views(rows@).filter(predicate::<T, C>(*c)),
{
    let mut out: Vec<T> = Vec::new();
    let mut i: usize = 0;
    let ghost all = views(rows@);
    let ghost p = predicate::<T, C>(*c);
    proof {
        lemma_filter_none(all, p);
        assert(views(out@) =~= Seq::empty());
    }
    while i < rows.len()
        invariant
            all == views(rows@),
            p == predicate::<T, C>(*c),
            i <= rows.len(),
            views(out@) == all.take(i as int).filter(p),
        decreases rows.len() - i,
    {
        proof {
            lemma_filter_step(all, p, i as int);
        }
        if c.check(&rows[i]) {
            let copy = rows[i].copy();
            assert(views(out@.push(copy)) =~= views(out@).push(copy@));
            out.push(copy);
        }
        i += 1;
    }
    assert(all.take(i as int) =~= all);
    out
}

/// The number of rows that satisfy a condition.
pub fn count<T: Row, C: Condition<T>>(rows: &Vec<T>, c: &C) -> (r: usize)
    ensures
        r == views(rows@).filter(predicate::<T, C>(*c)).len(),
{
    let mut n: usize = 0;
    let mut i: usize = 0;
    let ghost all = views(rows@);
    let ghost p = predicate::<T, C>(*c);
    proof {
        lemma_filter_none(all, p);
    }
    while i < rows.len()
        invariant
            all == views(rows@),
            p == predicate::<T, C>(*c),
            n <= i <= rows.len(),
            n == all.take(i as int).filter(p).len(),
        decreases rows.len() - i,
    {
        proof {
            lemma_filter_step(all, p, i as int);
        }
        if c.check(&rows[i]) {
            n += 1;
        }
        i += 1;
    }
    assert(all.take(i as int) =~= all);
    n
}

/// A copy of the first row that satisfies a condition.
pub fn find<T: Row, C: Condition<T>>(rows: &Vec<T>, c: &C) -> (r: Option<T>)
    ensures
        opt_row(r) == first(views(rows@), predicate::<T, C>(*c)),
{
    let mut i: usize = 0;
    let ghost all = views(rows@);
    let ghost p = predicate::<T, C>(*c);
    proof {
        lemma_filter_none(all, p);
    }
    while i < rows.len()
        invariant
            all == views(rows@),
            p == predicate::<T, C>(*c),
            i <= rows.len(),
            all.take(i as int).filter(p).len() == 0,
        decreases rows.len() - i,
    {
        proof {
            lemma_filter_step(all, p, i as int);
        }
        if c.check(&rows[i]) {
            proof {
                let t = all.take(i + 1);
                Seq::filter_distributes_over_add(t, all.skip(i + 1), p);
                assert(t + all.skip(i + 1) =~= all);
            }
            return Some(rows[i].copy());
        }
        i += 1;
    }
    assert(all.take(i as int) =~= all);
    None
}

/// Changes the rows that satisfy a condition; the number of those rows.
pub fn edit<T: Row, C: Change<T>>(rows: &mut Vec<T>, c: &C) -> (r: usize)
    ensures
        views(final(rows)@) == edited(
            views(old(rows)@),
            predicate::<T, C>(*c),
            change::<T, C>(*c),
        ),
        r == views(old(rows)@).filter(predicate::<T, C>(*c)).len(),
{
    let mut n: usize = 0;
    let mut i: usize = 0;
    let ghost all = views(rows@);
    let ghost p = predicate::<T, C>(*c);
    let ghost f = change::<T, C>(*c);
    let ghost target = edited(all, p, f);
    proof {
        lemma_filter_none(all, p);
    }
    while i < rows.len()
        invariant
            all == views(old(rows)@),
            p == predicate::<T, C>(*c),
            f == change::<T, C>(*c),
            target == edited(all, p, f),
            rows.len() == all.len(),
            n <= i <= rows.len(),
            n == all.take(i as int).filter(p).len(),
            forall|j: int| 0 <= j < i ==> (#[trigger] rows@[j])@ == target[j],
            forall|j: int| i <= j < rows.len() ==> (#[trigger] rows@[j])@ == all[j],
        decreases rows.len() - i,
    {
        proof {
            lemma_filter_step(all, p, i as int);
            assert(rows@[i as int]@ == all[i as int]);
        }
        if c.check(&rows[i]) {
            let row = c.apply(&rows[i]);
            rows.set(i, row);
            n += 1;
        }
        i += 1;
    }
    assert(all.take(i as int) =~= all);
    assert(views(rows@) =~= target);
    n
}

/// The rows in order.
pub fn sort<T: Row, O: RowOrder<T>>(rows: &Vec<T>) -> (r: Vec<T>)
    ensures
        views(r@) == sorted(views(rows@), relation::<T, O>()),
{
    let mut out: Vec<T> = Vec::new();
    let mut i: usize = 0;
    let ghost all = views(rows@);
    let ghost before = relation::<T, O>();
    proof {
        assert(all.take(0).len() == 0);
        assert(views(out@) =~= sorted(all.take(0), before));
    }
    while i < rows.len()
        invariant
            all == views(rows@),
            before == relation::<T, O>(),
            i <= rows.len(),
            views(out@) == sorted(all.take(i as int), before),
        decreases rows.len() - i,
    {
        let copy = rows[i].copy();
        let ghost x = copy@;
        let ghost s = views(out@);
        let mut k: usize = out.len();
        let ghost mut tail: Seq<T::V> = Seq::empty();
        proof {
            assert(s.take(k as int) =~= s);
            assert(inserted(s, before, x) + tail =~= inserted(s, before, x));
            assert(s.skip(k as int) =~= tail);
        }
        while k > 0 && O::is_before(&copy, &out[k - 1])
            invariant
                before == relation::<T, O>(),
                x == copy@,
                s == views(out@),
                k <= out.len(),
                tail == s.skip(k as int),
                inserted(s, before, x) == inserted(s.take(k as int), before, x) + tail,
            decreases k,
        {
            proof {
                let t = s.take(k as int);
                assert(t.last() == s[k - 1]);
                assert(t.drop_last() =~= s.take(k - 1));
                assert(inserted(t, before, x) == inserted(s.take(k - 1), before, x).push(t.last()));
                assert(s.skip(k - 1) =~= seq![s[k - 1]] + tail);
                assert(inserted(t, before, x) + tail =~= inserted(s.take(k - 1), before, x)
                    + s.skip(k - 1));
                tail = s.skip(k - 1);
            }
            k -= 1;
        }
        proof {
            let t = s.take(k as int);
            if k > 0 {
                assert(t.last() == s[k - 1]);
            }
            assert(inserted(t, before, x) == t.push(x));
            assert(all.take(i + 1).drop_last() =~= all.take(i as int));
            assert(all.take(i + 1).last() == x);
        }
        out.insert(k, copy);
        assert(views(out@) =~= s.take(k as int).push(x) + tail);
        i += 1;
    }
    assert(all.take(i as int) =~= all);
    out
}

/// A page of rows.
pub fn take_page<T: Row>(rows: &Vec<T>, offset: i64, limit: i64) -> (r: Vec<T>)
    ensures
        views(r@) == page(views(rows@), offset as int, limit as int),
{
    let mut out: Vec<T> = Vec::new();
    let n: usize = rows.len();
    let from: usize = if offset <= 0 {
        0
    } else if offset as u64 >= n as u64 {
        n
    } else {
        offset as usize
    };
    let size: usize = if 0 <= limit && (limit as u64) < (n - from) as u64 {
        limit as usize
    } else {
        n - from
    };
    let ghost whole = page(views(rows@), offset as int, limit as int);
    let mut i: usize = 0;
    assert(views(out@) =~= whole.take(0));
    while i < size
        invariant
            n == rows.len(),
            from + size <= n,
            i <= size,
            whole.len() == size,
            forall|j: int| 0 <= j < size ==> whole[j] == (#[trigger] rows@[from + j])@,
            views(out@) == whole.take(i as int),
        decreases size - i,
    {
        let copy = rows[from + i].copy();
        assert(copy@ == whole[i as int]);
        assert(views(out@.push(copy)) =~= views(out@).push(copy@));
        assert(whole.take(i + 1) =~= whole.take(i as int).push(copy@));
        out.push(copy);
        i += 1;
    }
    assert(whole.take(i as int) =~= whole);
    out
}

/// The rows, each handed out.
pub fn hand_out_all<T: Stored>(rows: &Vec<T>) -> (r: Vec<T>)
    ensures
        views(r@) == views(rows@).map_values(form::<T>()),
{
    let mut out: Vec<T> = Vec::new();
    let mut i: usize = 0;
    while i < rows.len()
        invariant
            i <= rows.len(),
            out.len() == i,
            forall|j: int|
                0 <= j < i ==> (#[trigger] out@[j])@ == T::handed_out(rows@[j]@),
        decreases rows.len() - i,
    {
        out.push(rows[i].hand_out());
        i += 1;
    }
    assert(views(out@) =~= views(rows@).map_values(form::<T>()));
    out
}

/// An optional row, handed out.
pub fn hand_out_opt<T: Stored>(row: Option<T>) -> (r: Option<T>)
    ensures
        opt_row(r) == (match opt_row(row) {
            Some(v) => Some(T::handed_out(v)),
            None => None,
        }),
{
    match row {
        Some(t) => Some(t.hand_out()),
        None => None,
    }
}

/// A filter keeps something exactly where something satisfies the predicate.
pub proof fn lemma_filter_nonempty<A>(s: Seq<A>, p: spec_fn(A) -> bool)
    ensures
        s.filter(p).len() > 0 <==> exists|i: int| 0 <= i < s.len() && p(#[trigger] s[i]),
    decreases s.len(),
{
    reveal(Seq::filter);
    if s.len() > 0 {
        let t = s.drop_last();
        lemma_filter_nonempty(t, p);
        assert forall|i: int| 0 <= i < t.len() implies t[i] == s[i] by {}
        if s.filter(p).len() > 0 {
            if p(s.last()) {
                assert(p(s[s.len() - 1]));
            } else {
                let i = choose|i: int| 0 <= i < t.len() && p(#[trigger] t[i]);
                assert(p(s[i]));
            }
        }
        if exists|i: int| 0 <= i < s.len() && p(#[trigger] s[i]) {
            let i = choose|i: int| 0 <= i < s.len() && p(#[trigger] s[i]);
            if i < t.len() {
                assert(p(t[i]));
            }
        }
    }
}

/// What a filter keeps: the members that satisfy the predicate.
pub proof fn lemma_filter_members<A>(s: Seq<A>, p: spec_fn(A) -> bool, x: A)
    ensures
        s.filter(p).contains(x) <==> s.contains(x) && p(x),
    decreases s.len(),
{
    reveal(Seq::filter);
    if s.len() > 0 {
        let t = s.drop_last();
        lemma_filter_members(t, p, x);
        assert(s =~= t.push(s.last()));
        if s.contains(x) {
            let i = choose|i: int| 0 <= i < s.len() && s[i] == x;
            if i < t.len() {
                assert(t[i] == x);
            }
        }
        if t.contains(x) {
            let i = choose|i: int| 0 <= i < t.len() && t[i] == x;
            assert(s[i] == x);
        }
        assert(s[s.len() - 1] == s.last());
        let f = t.filter(p);
        let g = f.push(s.last());
        if f.contains(x) {
            let i = choose|i: int| 0 <= i < f.len() && f[i] == x;
            assert(g[i] == x);
        }
        assert(g[f.len() as int] == s.last());
        if g.contains(x) {
            let i = choose|i: int| 0 <= i < g.len() && g[i] == x;
            if i < f.len() {
                assert(f[i] == x);
            }
        }
    }
}

/// Whether a relation orders rows, up to ties.
pub open spec fn is_order<V>(before: spec_fn(V, V) -> bool) -> bool {
    &&& forall|a: V, b: V| #[trigger] before(a, b) ==> !before(b, a)
    &&& forall|a: V, b: V, c: V|
        !(#[trigger] before(a, b)) && !(#[trigger] before(b, c)) ==> !before(a, c)
}

/// Whether no row comes before one that it stands behind.
pub open spec fn in_order<V>(s: Seq<V>, before: spec_fn(V, V) -> bool) -> bool {
    forall|i: int, j: int| 0 <= i < j < s.len() ==> !before(#[trigger] s[j], #[trigger] s[i])
}

/// Whether no two rows have one key.
pub open spec fn distinct<V, K>(s: Seq<V>, key: spec_fn(V) -> K) -> bool {
    forall|i: int, j: int|
        0 <= i < j < s.len() ==> key(#[trigger] s[i]) != key(#[trigger] s[j])
}

/// Where a row is inserted.
proof fn lemma_inserted_shape<V>(s: Seq<V>, before: spec_fn(V, V) -> bool, x: V) -> (k: int)
    ensures
        0 <= k <= s.len(),
        inserted(s, before, x) == s.take(k).push(x) + s.skip(k),
        forall|i: int| k <= i < s.len() ==> before(x, #[trigger] s[i]),
        k > 0 ==> !before(x, s[k - 1]),
    decreases s.len(),
{
    if s.len() > 0 && before(x, s.last()) {
        let t = s.drop_last();
        let k = lemma_inserted_shape(t, before, x);
        assert(t.take(k) =~= s.take(k));
        assert(inserted(s, before, x) =~= s.take(k).push(x) + s.skip(k));
        assert forall|i: int| k <= i < s.len() implies before(x, #[trigger] s[i]) by {
            if i < t.len() {
                assert(s[i] == t[i]);
            }
        }
        if k > 0 {
            assert(t[k - 1] == s[k - 1]);
        }
        k
    } else {
        assert(s.take(s.len() as int) =~= s);
        assert(s.skip(s.len() as int) =~= Seq::empty());
        assert(inserted(s, before, x) =~= s.take(s.len() as int).push(x) + s.skip(s.len() as int));
        s.len() as int
    }
}

/// Sorting puts rows in order.
pub proof fn lemma_sorted_in_order<V>(s: Seq<V>, before: spec_fn(V, V) -> bool)
    requires
        is_order(before),
    ensures
        in_order(sorted(s, before), before),
    decreases s.len(),
{
    if s.len() > 0 {
        let t = sorted(s.drop_last(), before);
        let x = s.last();
        lemma_sorted_in_order(s.drop_last(), before);
        let k = lemma_inserted_shape(t, before, x);
        let out = sorted(s, before);
        assert forall|i: int| 0 <= i < k implies !before(x, #[trigger] t[i]) by {
            if i < k - 1 {
                assert(!before(t[k - 1], t[i]));
                assert(!before(x, t[k - 1]));
            }
        }
        assert forall|i: int, j: int| 0 <= i < j < out.len() implies !before(
            #[trigger] out[j],
            #[trigger] out[i],
        ) by {
            let a = if i < k {
                i
            } else {
                i - 1
            };
            let b = if j < k {
                j
            } else {
                j - 1
            };
            if i == k {
                assert(before(x, t[b]));
            } else if j == k {
                assert(!before(x, t[a]));
            } else {
                assert(out[i] == t[a] && out[j] == t[b]);
            }
        }
    }
}

/// Sorting keeps the rows.
pub proof fn lemma_sorted_same_rows<V>(s: Seq<V>, before: spec_fn(V, V) -> bool)
    ensures
        sorted(s, before).len() == s.len(),
        sorted(s, before).to_multiset() == s.to_multiset(),
        forall|x: V| #[trigger] sorted(s, before).contains(x) <==> s.contains(x),
    decreases s.len(),
{
    broadcast use vstd::seq_lib::group_to_multiset_ensures;

    if s.len() > 0 {
        let r = s.drop_last();
        let t = sorted(r, before);
        let x = s.last();
        lemma_sorted_same_rows(r, before);
        let k = lemma_inserted_shape(t, before, x);
        assert(t.insert(k, x) =~= t.take(k).push(x) + t.skip(k));
        assert(s =~= r.push(x));
        let out = sorted(s, before);
        assert(out.to_multiset() =~= s.to_multiset());
        assert forall|y: V| #[trigger] out.contains(y) <==> s.contains(y) by {
            assert(out.to_multiset().contains(y) <==> s.to_multiset().contains(y));
        }
    }
}

/// Sorting keeps keys distinct.
pub proof fn lemma_sorted_distinct<V, K>(
    s: Seq<V>,
    before: spec_fn(V, V) -> bool,
    key: spec_fn(V) -> K,
)
    requires
        distinct(s, key),
    ensures
        distinct(sorted(s, before), key),
    decreases s.len(),
{
    if s.len() > 0 {
        let r = s.drop_last();
        let t = sorted(r, before);
        let x = s.last();
        assert forall|i: int, j: int| 0 <= i < j < r.len() implies key(#[trigger] r[i]) != key(
            #[trigger] r[j],
        ) by {
            assert(key(s[i]) != key(s[j]));
        }
        lemma_sorted_distinct(r, before, key);
        lemma_sorted_same_rows(r, before);
        assert forall|i: int| 0 <= i < t.len() implies key(#[trigger] t[i]) != key(x) by {
            assert(t.contains(t[i]));
            assert(r.contains(t[i]));
            let j = choose|j: int| 0 <= j < r.len() && r[j] == t[i];
            assert(key(s[j]) != key(s[s.len() - 1]));
        }
        let k = lemma_inserted_shape(t, before, x);
        let out = sorted(s, before);
        assert forall|i: int, j: int| 0 <= i < j < out.len() implies key(#[trigger] out[i]) != key(
            #[trigger] out[j],
        ) by {
            let a = if i < k {
                i
            } else {
                i - 1
            };
            let b = if j < k {
                j
            } else {
                j - 1
            };
            if i == k {
                assert(out[j] == t[b]);
            } else if j == k {
                assert(out[i] == t[a]);
            } else {
                assert(out[i] == t[a] && out[j] == t[b]);
            }
        }
    }
}

/// Filtering keeps keys distinct.
pub proof fn lemma_filter_distinct<V, K>(
    s: Seq<V>,
    p: spec_fn(V) -> bool,
    key: spec_fn(V) -> K,
)
    requires
        distinct(s, key),
    ensures
        distinct(s.filter(p), key),
    decreases s.len(),
{
    reveal(Seq::filter);
    if s.len() > 0 {
        let r = s.drop_last();
        let x = s.last();
        assert forall|i: int, j: int| 0 <= i < j < r.len() implies key(#[trigger] r[i]) != key(
            #[trigger] r[j],
        ) by {
            assert(key(s[i]) != key(s[j]));
        }
        lemma_filter_distinct(r, p, key);
        let f = r.filter(p);
        assert forall|i: int| 0 <= i < f.len() implies key(#[trigger] f[i]) != key(x) by {
            lemma_filter_members(r, p, f[i]);
            assert(f.contains(f[i]));
            let j = choose|j: int| 0 <= j < r.len() && r[j] == f[i];
            assert(key(s[j]) != key(s[s.len() - 1]));
        }
    }
}

/// Two filters are one.
pub proof fn lemma_filter_twice<V>(
    s: Seq<V>,
    p: spec_fn(V) -> bool,
    q: spec_fn(V) -> bool,
    both: spec_fn(V) -> bool,
)
    requires
        forall|i: int|
            0 <= i < s.len() ==> both(#[trigger] s[i]) == (p(s[i]) && q(s[i])),
    ensures
        s.filter(p).filter(q) == s.filter(both),
    decreases s.len(),
{
    reveal(Seq::filter);
    if s.len() > 0 {
        let r = s.drop_last();
        assert forall|i: int| 0 <= i < r.len() implies both(#[trigger] r[i]) == (p(r[i]) && q(
            r[i],
        )) by {
            assert(r[i] == s[i]);
        }
        lemma_filter_twice(r, p, q, both);
        assert(both(s[s.len() - 1]) == (p(s[s.len() - 1]) && q(s[s.len() - 1])));
        let f = r.filter(p);
        if p(s.last()) {
            assert(f.push(s.last()).drop_last() =~= f);
        }
    } else {
        assert(s.filter(p) =~= s);
    }
}

/// Predicates that agree on the rows filter alike.
pub proof fn lemma_filter_same<V>(s: Seq<V>, p: spec_fn(V) -> bool, q: spec_fn(V) -> bool)
    requires
        forall|i: int| 0 <= i < s.len() ==> p(#[trigger] s[i]) == q(s[i]),
    ensures
        s.filter(p) == s.filter(q),
    decreases s.len(),
{
    reveal(Seq::filter);
    if s.len() > 0 {
        let r = s.drop_last();
        assert forall|i: int| 0 <= i < r.len() implies p(#[trigger] r[i]) == q(r[i]) by {
            assert(r[i] == s[i]);
        }
        lemma_filter_same(r, p, q);
        assert(p(s[s.len() - 1]) == q(s[s.len() - 1]));
    }
}

/// Filtering commutes with inserting into rows in order.
proof fn lemma_inserted_filter<V>(
    s: Seq<V>,
    before: spec_fn(V, V) -> bool,
    x: V,
    p: spec_fn(V) -> bool,
)
    requires
        is_order(before),
        in_order(s, before),
    ensures
        inserted(s, before, x).filter(p) == (if p(x) {
            inserted(s.filter(p), before, x)
        } else {
            s.filter(p)
        }),
    decreases s.len(),
{
    reveal(Seq::filter);
    if s.len() > 0 && before(x, s.last()) {
        let t = s.drop_last();
        assert forall|i: int, j: int| 0 <= i < j < t.len() implies !before(
            #[trigger] t[j],
            #[trigger] t[i],
        ) by {
            assert(!before(s[j], s[i]));
        }
        lemma_inserted_filter(t, before, x, p);
        let ins = inserted(t, before, x);
        assert(inserted(s, before, x).drop_last() =~= ins);
        if p(s.last()) && p(x) {
            let f = s.filter(p);
            assert(f.drop_last() =~= t.filter(p));
        }
    } else {
        assert(s.push(x).drop_last() =~= s);
        let f = s.filter(p);
        if p(x) && f.len() > 0 {
            lemma_filter_members(s, p, f.last());
            assert(f.contains(f[f.len() - 1]));
            let i = choose|i: int| 0 <= i < s.len() && s[i] == f.last();
            if i < s.len() - 1 {
                assert(!before(s[s.len() - 1], s[i]));
            }
            assert(!before(x, f.last()));
        }
    }
}

/// Filtering sorted rows gives the sorted filtered rows.
pub proof fn lemma_sorted_filter<V>(
    s: Seq<V>,
    before: spec_fn(V, V) -> bool,
    p: spec_fn(V) -> bool,
)
    requires
        is_order(before),
    ensures
        sorted(s, before).filter(p) == sorted(s.filter(p), before),
    decreases s.len(),
{
    reveal(Seq::filter);
    if s.len() > 0 {
        let r = s.drop_last();
        lemma_sorted_filter(r, before, p);
        lemma_sorted_in_order(r, before);
        lemma_inserted_filter(sorted(r, before), before, s.last(), p);
        if p(s.last()) {
            let f = s.filter(p);
            assert(f.drop_last() =~= r.filter(p));
        }
    }
}

/// A predicate that holds of exactly the last rows filters these out.
pub proof fn lemma_filter_suffix<V>(s: Seq<V>, p: spec_fn(V) -> bool, k: int)
    requires
        0 <= k <= s.len(),
        forall|i: int| 0 <= i < s.len() ==> p(#[trigger] s[i]) == (k <= i),
    ensures
        s.filter(p) == s.skip(k),
    decreases s.len(),
{
    reveal(Seq::filter);
    if s.len() > 0 {
        let r = s.drop_last();
        let m = if k < s.len() {
            k
        } else {
            r.len() as int
        };
        assert forall|i: int| 0 <= i < r.len() implies p(#[trigger] r[i]) == (m <= i) by {
            assert(r[i] == s[i]);
        }
        lemma_filter_suffix(r, p, m);
        assert(p(s[s.len() - 1]) == (k <= s.len() - 1));
        if k < s.len() {
            assert(r.skip(k).push(s.last()) =~= s.skip(k));
        } else {
            assert(r.skip(m) =~= s.skip(k));
        }
    } else {
        assert(s.skip(k) =~= s);
    }
}

/// A predicate that holds of exactly the first rows filters these out.
pub proof fn lemma_filter_prefix<V>(s: Seq<V>, p: spec_fn(V) -> bool, k: int)
    requires
        0 <= k <= s.len(),
        forall|i: int| 0 <= i < s.len() ==> p(#[trigger] s[i]) == (i < k),
    ensures
        s.filter(p) == s.take(k),
    decreases s.len(),
{
    reveal(Seq::filter);
    if s.len() > 0 {
        let r = s.drop_last();
        let m = if k < s.len() {
            k
        } else {
            r.len() as int
        };
        assert forall|i: int| 0 <= i < r.len() implies p(#[trigger] r[i]) == (i < m) by {
            assert(r[i] == s[i]);
        }
        lemma_filter_prefix(r, p, m);
        assert(p(s[s.len() - 1]) == (s.len() - 1 < k));
        if k < s.len() {
            assert(r.take(k) =~= s.take(k));
        } else {
            assert(r.take(m).push(s.last()) =~= s.take(k));
        }
    } else {
        assert(s.take(k) =~= s);
    }
}

/// Replacing a row that satisfies a predicate by one that does not takes one row
/// out of its filter.
pub proof fn lemma_filter_update<V>(s: Seq<V>, p: spec_fn(V) -> bool, k: int, x: V)
    requires
        0 <= k < s.len(),
        p(s[k]),
        !p(x),
    ensures
        s.update(k, x).filter(p).len() == s.filter(p).len() - 1,
    decreases s.len(),
{
    reveal(Seq::filter);
    let r = s.drop_last();
    if k < r.len() {
        lemma_filter_update(r, p, k, x);
        assert(s.update(k, x).drop_last() =~= r.update(k, x));
        assert(s.update(k, x).last() == s.last());
    } else {
        assert(s.update(k, x).drop_last() =~= r);
    }
}

/// Rows that satisfy a predicate either satisfy another or do not.
pub proof fn lemma_filter_split<V>(s: Seq<V>, p: spec_fn(V) -> bool, q: spec_fn(V) -> bool)
    ensures
        s.filter(p).len() == s.filter(|x: V| p(x) && q(x)).len() + s.filter(
            |x: V| p(x) && !q(x),
        ).len(),
    decreases s.len(),
{
    reveal(Seq::filter);
    if s.len() > 0 {
        lemma_filter_split(s.drop_last(), p, q);
    }
}

/// Removing the first rows that satisfy a predicate, by their keys, removes as
/// many rows as were taken, and only rows that satisfy it; those that satisfy it
/// and were not taken are left.
pub proof fn lemma_pruned<V, K>(
    s: Seq<V>,
    p: spec_fn(V) -> bool,
    limit: int,
    key: spec_fn(V) -> K,
    kept: spec_fn(V) -> bool,
)
    requires
        distinct(s, key),
        forall|x: V| #[trigger]
            kept(x) == !(exists|j: int|
                0 <= j < page(s.filter(p), 0, limit).len() && key(
                    #[trigger] page(s.filter(p), 0, limit)[j],
                ) == key(x)),
    ensures
        s.len() - s.filter(kept).len() == page(s.filter(p), 0, limit).len(),
        s.filter(kept).filter(p) == s.filter(p).skip(page(s.filter(p), 0, limit).len() as int),
        forall|i: int| 0 <= i < s.len() && !kept(#[trigger] s[i]) ==> p(s[i]),
{
    let hits = s.filter(p);
    let pruned = page(hits, 0, limit);
    let taken = |x: V| !kept(x);
    let all = |x: V| true;
    assert(hits.skip(0) =~= hits);
    lemma_filter_distinct(s, p, key);
    lemma_filter_split(s, all, taken);
    lemma_filter_same(s, |x: V| all(x) && taken(x), taken);
    lemma_filter_same(s, |x: V| all(x) && !taken(x), kept);
    lemma_filter_prefix(s, all, s.len() as int);
    assert(s.take(s.len() as int) =~= s);
    assert forall|i: int| 0 <= i < s.len() && !kept(#[trigger] s[i]) implies p(s[i]) by {
        let j = choose|j: int| 0 <= j < pruned.len() && key(#[trigger] pruned[j]) == key(s[i]);
        assert(pruned[j] == hits[j]);
        lemma_filter_members(s, p, hits[j]);
        assert(hits.contains(hits[j]));
        let m = choose|m: int| 0 <= m < s.len() && s[m] == hits[j];
        if m < i {
            assert(key(s[m]) != key(s[i]));
        } else if i < m {
            assert(key(s[i]) != key(s[m]));
        }
    }
    lemma_filter_twice(s, p, taken, taken);
    assert forall|i: int| 0 <= i < hits.len() implies taken(#[trigger] hits[i]) == (i
        < pruned.len()) by {
        if i < pruned.len() {
            assert(key(pruned[i]) == key(hits[i]));
        } else if taken(hits[i]) {
            let j = choose|j: int|
                0 <= j < pruned.len() && key(#[trigger] pruned[j]) == key(hits[i]);
            assert(key(hits[j]) != key(hits[i]));
        }
    }
    lemma_filter_prefix(hits, taken, pruned.len() as int);
    let left = |x: V| p(x) && kept(x);
    lemma_filter_twice(s, p, kept, left);
    lemma_filter_twice(s, kept, p, left);
    assert forall|i: int| 0 <= i < hits.len() implies kept(#[trigger] hits[i]) == (pruned.len()
        <= i) by {
        assert(taken(hits[i]) == (i < pruned.len()));
    }
    lemma_filter_suffix(hits, kept, pruned.len() as int);
}

/// Whether neither of two rows comes before the other.
pub open spec fn tied<V>(before: spec_fn(V, V) -> bool, x: V) -> spec_fn(V) -> bool {
    |y: V| !before(x, y) && !before(y, x)
}

/// Rows that are all tied stay as they are.
proof fn lemma_sorted_ties<V>(s: Seq<V>, before: spec_fn(V, V) -> bool)
    requires
        forall|i: int, j: int| 0 <= i < s.len() && 0 <= j < s.len() ==> !before(s[i], s[j]),
    ensures
        sorted(s, before) == s,
    decreases s.len(),
{
    if s.len() > 0 {
        let r = s.drop_last();
        assert forall|i: int, j: int| 0 <= i < r.len() && 0 <= j < r.len() implies !before(
            r[i],
            r[j],
        ) by {
            assert(!before(s[i], s[j]));
        }
        lemma_sorted_ties(r, before);
        if r.len() > 0 {
            assert(!before(s[s.len() - 1], s[s.len() - 2]));
        }
        assert(s =~= r.push(s.last()));
    }
}

/// Rows in order are fixed by the rows of each tie, in their order.
proof fn lemma_in_order_unique<V>(s: Seq<V>, t: Seq<V>, before: spec_fn(V, V) -> bool)
    requires
        is_order(before),
        in_order(s, before),
        in_order(t, before),
        forall|x: V| s.filter(#[trigger] tied(before, x)) == t.filter(tied(before, x)),
    ensures
        s == t,
    decreases s.len(),
{
    reveal(Seq::filter);
    if s.len() == 0 || t.len() == 0 {
        lemma_tie_is_kept(s, t, before);
        lemma_tie_is_kept(t, s, before);
        assert(s =~= t);
    } else {
        let a = s.last();
        let b = t.last();
        lemma_last_is_not_before(s, t, before);
        lemma_last_is_not_before(t, s, before);
        let p = tied(before, a);
        assert(p(a) && p(b)) by {
            assert(before(a, a) ==> !before(a, a));
        }
        assert(s.filter(p).last() == a);
        assert(t.filter(p).last() == b);
        let r = s.drop_last();
        let u = t.drop_last();
        assert(in_order(r, before)) by {
            assert forall|i: int, j: int| 0 <= i < j < r.len() implies !before(
                #[trigger] r[j],
                #[trigger] r[i],
            ) by {
                assert(!before(s[j], s[i]));
            }
        }
        assert(in_order(u, before)) by {
            assert forall|i: int, j: int| 0 <= i < j < u.len() implies !before(
                #[trigger] u[j],
                #[trigger] u[i],
            ) by {
                assert(!before(t[j], t[i]));
            }
        }
        assert forall|x: V| r.filter(#[trigger] tied(before, x)) == u.filter(tied(before, x)) by {
            let q = tied(before, x);
            assert(s.filter(q) == t.filter(q));
            if q(a) {
                assert(s.filter(q).drop_last() =~= r.filter(q));
                assert(t.filter(q).drop_last() =~= u.filter(q));
            }
        }
        lemma_in_order_unique(r, u, before);
        assert(s =~= r.push(a));
        assert(t =~= u.push(b));
    }
}

/// Where every tie has the same rows on both sides, one side has rows only where
/// the other does.
proof fn lemma_tie_is_kept<V>(s: Seq<V>, t: Seq<V>, before: spec_fn(V, V) -> bool)
    requires
        is_order(before),
        forall|x: V| s.filter(#[trigger] tied(before, x)) == t.filter(tied(before, x)),
    ensures
        s.len() > 0 ==> exists|i: int|
            0 <= i < t.len() && tied(before, s.last())(#[trigger] t[i]),
{
    if s.len() > 0 {
        let p = tied(before, s.last());
        assert(before(s.last(), s.last()) ==> !before(s.last(), s.last()));
        assert(p(s[s.len() - 1]));
        assert(s.filter(p) == t.filter(p));
        lemma_filter_nonempty(s, p);
        lemma_filter_nonempty(t, p);
    }
}

/// The last of rows in order does not come before the last of others with the
/// same ties.
proof fn lemma_last_is_not_before<V>(s: Seq<V>, t: Seq<V>, before: spec_fn(V, V) -> bool)
    requires
        is_order(before),
        in_order(s, before),
        s.len() > 0,
        t.len() > 0,
        forall|x: V| s.filter(#[trigger] tied(before, x)) == t.filter(tied(before, x)),
    ensures
        !before(s.last(), t.last()),
{
    let a = s.last();
    let b = t.last();
    assert forall|x: V| t.filter(#[trigger] tied(before, x)) == s.filter(tied(before, x)) by {}
    lemma_tie_is_kept(t, s, before);
    let i = choose|i: int| 0 <= i < s.len() && tied(before, b)(#[trigger] s[i]);
    let c = s[i];
    if i < s.len() - 1 {
        assert(!before(s[s.len() - 1], s[i]));
    } else {
        assert(before(a, a) ==> !before(a, a));
    }
    assert(!before(a, c) && !before(c, b));
}

/// What sorting means: the rows stand in order, they are the same rows, and rows
/// that tie stand as they came.
pub proof fn lemma_sorted<V>(s: Seq<V>, before: spec_fn(V, V) -> bool)
    requires
        is_order(before),
    ensures
        in_order(sorted(s, before), before),
        sorted(s, before).to_multiset() == s.to_multiset(),
        forall|x: V|
            sorted(s, before).filter(#[trigger] tied(before, x)) == s.filter(tied(before, x)),
{
    lemma_sorted_in_order(s, before);
    lemma_sorted_same_rows(s, before);
    assert forall|x: V|
        sorted(s, before).filter(#[trigger] tied(before, x)) == s.filter(tied(before, x)) by {
        let p = tied(before, x);
        let hits = s.filter(p);
        lemma_sorted_filter(s, before, p);
        assert forall|i: int, j: int| 0 <= i < hits.len() && 0 <= j < hits.len() implies !before(
            hits[i],
            hits[j],
        ) by {
            lemma_filter_members(s, p, hits[i]);
            lemma_filter_members(s, p, hits[j]);
            assert(hits.contains(hits[i]) && hits.contains(hits[j]));
            assert(!before(hits[i], x) && !before(x, hits[j]));
        }
        lemma_sorted_ties(hits, before);
    }
}

/// Sorting is fixed by its meaning: rows in order in which those that tie stand as
/// they came are the sorted rows.
pub proof fn lemma_sorted_is_unique<V>(s: Seq<V>, t: Seq<V>, before: spec_fn(V, V) -> bool)
    requires
        is_order(before),
        in_order(t, before),
        forall|x: V| t.filter(#[trigger] tied(before, x)) == s.filter(tied(before, x)),
    ensures
        t == sorted(s, before),
{
    lemma_sorted(s, before);
    assert forall|x: V|
        t.filter(#[trigger] tied(before, x)) == sorted(s, before).filter(tied(before, x)) by {
        assert(t.filter(tied(before, x)) == s.filter(tied(before, x)));
    }
    lemma_in_order_unique(t, sorted(s, before), before);
}

/// The first row that satisfies a predicate which holds of one row only.
pub proof fn lemma_first_is_only<V>(s: Seq<V>, p: spec_fn(V) -> bool, i: int)
    requires
        0 <= i < s.len(),
        p(s[i]),
        forall|j: int| 0 <= j < s.len() && j != i ==> !p(#[trigger] s[j]),
    ensures
        first(s, p) == Some(s[i]),
{
    lemma_filter_nonempty(s, p);
    let hits = s.filter(p);
    lemma_filter_members(s, p, hits[0]);
    assert(hits.contains(hits[0]));
    let j = choose|j: int| 0 <= j < s.len() && s[j] == hits[0];
    assert(j == i);
}

/// Filtering keeps rows in their order: where two rows stand among those that a
/// predicate keeps.
pub proof fn lemma_filter_keeps_order<V>(s: Seq<V>, p: spec_fn(V) -> bool, i: int, j: int) -> (r: (
    int,
    int,
))
    requires
        0 <= i < j < s.len(),
        p(s[i]),
        p(s[j]),
    ensures
        0 <= r.0 < r.1 < s.filter(p).len(),
        s.filter(p)[r.0] == s[i],
        s.filter(p)[r.1] == s[j],
    decreases s.len(),
{
    reveal(Seq::filter);
    let t = s.drop_last();
    if j < t.len() {
        let r = lemma_filter_keeps_order(t, p, i, j);
        r
    } else {
        lemma_filter_members(t, p, t[i]);
        assert(t.contains(t[i]));
        let hits = t.filter(p);
        let a = choose|a: int| 0 <= a < hits.len() && hits[a] == t[i];
        (a, hits.len() as int)
    }
}

/// A page holds the rows behind the offset, in their order, up to the limit; a
/// negative offset skips none and a negative limit leaves none out.
pub proof fn law_page<V>(s: Seq<V>, offset: int, limit: int, i: int)
    ensures
        ({
            let skipped = if offset < 0 {
                0
            } else {
                offset
            };
            let left = if skipped < s.len() {
                s.len() - skipped
            } else {
                0
            };
            &&& page(s, offset, limit).len() == (if 0 <= limit < left {
                limit
            } else {
                left
            })
            &&& 0 <= i < page(s, offset, limit).len() ==> page(s, offset, limit)[i] == s[skipped + i]
        }),
{
}

/// A number of rows that a signed 64-bit count can hold is that count.
pub proof fn law_row_count(n: nat)
    requires
        n <= 0x7fff_ffff_ffff_ffff,
    ensures
        row_count(n) == n,
{
}

} // verus!

//! Text as the sequence of its characters: equality, order, trimming.
use vstd::prelude::*;

verus! {

/// Whether `a` comes strictly before `b` when texts are compared character by
/// character by code point, a proper prefix coming first. UTF-8 keeps code
/// point order, so this is also the byte order of the encoded texts.
pub open spec fn lex_lt(a: Seq<char>, b: Seq<char>) -> bool
    decreases a.len(),
{
    if b.len() == 0 {
        false
    } else if a.len() == 0 {
        true
    } else {
        a[0] < b[0] || (a[0] == b[0] && lex_lt(a.drop_first(), b.drop_first()))
    }
}

/// The characters with the Unicode `White_Space` property.
pub open spec fn is_whitespace(c: char) -> bool {
    let u = c as int;
    ||| 0x9 <= u <= 0xd
    ||| u == 0x20
    ||| u == 0x85
    ||| u == 0xa0
    ||| u == 0x1680
    ||| 0x2000 <= u <= 0x200a
    ||| u == 0x2028
    ||| u == 0x2029
    ||| u == 0x202f
    ||| u == 0x205f
    ||| u == 0x3000
}

/// `s` without its leading whitespace.
pub open spec fn trimmed_start(s: Seq<char>) -> Seq<char>
    decreases s.len(),
{
    if s.len() > 0 && is_whitespace(s[0]) {
        trimmed_start(s.drop_first())
    } else {
        s
    }
}

/// `s` without its trailing whitespace.
pub open spec fn trimmed_end(s: Seq<char>) -> Seq<char>
    decreases s.len(),
{
    if s.len() > 0 && is_whitespace(s.last()) {
        trimmed_end(s.drop_last())
    } else {
        s
    }
}

/// `s` without leading and trailing whitespace.
pub open spec fn trimmed(s: Seq<char>) -> Seq<char> {
    trimmed_end(trimmed_start(s))
}

/// The ASCII upper-case form of a character; any other character is its own.
pub open spec fn ascii_upper(c: char) -> char {
    if 'a' <= c && c <= 'z' {
        (c as u32 - 32) as char
    } else {
        c
    }
}

/// Whether two texts agree up to the case of ASCII letters.
pub open spec fn same_ignoring_case(a: Seq<char>, b: Seq<char>) -> bool {
    a.len() == b.len() && forall|i: int|
        0 <= i < a.len() ==> ascii_upper(#[trigger] a[i]) == ascii_upper(#[trigger] b[i])
}

/// ASCII whitespace.
pub open spec fn is_blank(c: char) -> bool {
    c == ' ' || ('\t' <= c && c <= '\r')
}

/// `s` without its leading blanks.
pub open spec fn without_blanks(s: Seq<char>) -> Seq<char>
    decreases s.len(),
{
    if s.len() > 0 && is_blank(s[0]) {
        without_blanks(s.drop_first())
    } else {
        s
    }
}

/// The view of an optional string.
pub open spec fn opt_view(s: Option<String>) -> Option<Seq<char>> {
    match s {
        Some(t) => Some(t@),
        None => None,
    }
}

/// The view of an optional string slice.
pub open spec fn opt_str_view(s: Option<&str>) -> Option<Seq<char>> {
    match s {
        Some(t) => Some(t@),
        None => None,
    }
}

/// The characters of a string.
pub fn chars_of(s: &str) -> (r: Vec<char>)
    ensures
        r@ == s@,
{
    let mut out: Vec<char> = Vec::new();
    for c in it: s.chars()
        invariant
            out@ == s@.take(it.index()),
            it.seq() == s@,
    {
        proof {
            assert(s@.take(it.index() + 1) =~= s@.take(it.index()).push(c));
        }
        out.push(c);
    }
    assert(s@.take(s@.len() as int) =~= s@);
    out
}

/// The characters from position `i` on.
pub fn tail(xs: &Vec<char>, i: usize) -> (r: Vec<char>)
    requires
        i <= xs.len(),
    ensures
        r@ == xs@.skip(i as int),
{
    let mut out: Vec<char> = Vec::new();
    let mut j: usize = i;
    while j < xs.len()
        invariant
            i <= j <= xs.len(),
            out@ == xs@.subrange(i as int, j as int),
        decreases xs.len() - j,
    {
        out.push(xs[j]);
        j += 1;
        assert(out@ =~= xs@.subrange(i as int, j as int));
    }
    assert(out@ =~= xs@.skip(i as int));
    out
}

/// Whether a character is ASCII whitespace.
pub fn char_is_blank(c: char) -> (r: bool)
    ensures
        r == is_blank(c),
{
    c == ' ' || ('\t' <= c && c <= '\r')
}

/// Skips leading blanks.
pub fn skip_blanks(xs: &Vec<char>) -> (r: Vec<char>)
    ensures
        r@ == without_blanks(xs@),
{
    let mut i: usize = 0;
    assert(xs@.skip(0) =~= xs@);
    while i < xs.len() && char_is_blank(xs[i])
        invariant
            i <= xs.len(),
            without_blanks(xs@.skip(i as int)) == without_blanks(xs@),
        decreases xs.len() - i,
    {
        assert(xs@.skip(i as int).drop_first() =~= xs@.skip(i + 1));
        i += 1;
    }
    tail(xs, i)
}

/// Whether two strings hold the same characters.
pub fn str_eq(a: &str, b: &str) -> (r: bool)
    ensures
        r == (a@ == b@),
{
    let xs = chars_of(a);
    let ys = chars_of(b);
    if xs.len() != ys.len() {
        return false;
    }
    let mut i: usize = 0;
    while i < xs.len()
        invariant
            xs@ == a@,
            ys@ == b@,
            xs.len() == ys.len(),
            i <= xs.len(),
            forall|j: int| 0 <= j < i ==> xs@[j] == ys@[j],
        decreases xs.len() - i,
    {
        if xs[i] != ys[i] {
            return false;
        }
        i += 1;
    }
    assert(a@ =~= b@);
    true
}

/// Whether `a` comes strictly before `b` in text order.
pub fn str_lt(a: &str, b: &str) -> (r: bool)
    ensures
        r == lex_lt(a@, b@),
{
    let xs = chars_of(a);
    let ys = chars_of(b);
    let mut i: usize = 0;
    assert(xs@.skip(0) =~= xs@);
    assert(ys@.skip(0) =~= ys@);
    while i < xs.len() && i < ys.len()
        invariant
            xs@ == a@,
            ys@ == b@,
            i <= xs.len(),
            i <= ys.len(),
            lex_lt(a@, b@) == lex_lt(xs@.skip(i as int), ys@.skip(i as int)),
        decreases xs.len() - i,
    {
        let x = xs[i];
        let y = ys[i];
        proof {
            assert(xs@.skip(i as int).drop_first() =~= xs@.skip(i + 1));
            assert(ys@.skip(i as int).drop_first() =~= ys@.skip(i + 1));
        }
        if x != y {
            return x < y;
        }
        i += 1;
    }
    i < ys.len()
}

/// Whether `c` is whitespace.
pub fn char_is_whitespace(c: char) -> (r: bool)
    ensures
        r == is_whitespace(c),
{
    let u = c as u32;
    (0x9 <= u && u <= 0xd) || u == 0x20 || u == 0x85 || u == 0xa0 || u == 0x1680 || (0x2000 <= u
        && u <= 0x200a) || u == 0x2028 || u == 0x2029 || u == 0x202f || u == 0x205f || u == 0x3000
}

/// The ASCII upper-case form of `c`.
pub fn char_ascii_upper(c: char) -> (r: char)
    ensures
        r == ascii_upper(c),
{
    if 'a' <= c && c <= 'z' {
        let b: u8 = c as u8;
        (b - 32) as char
    } else {
        c
    }
}

/// Whether two strings agree up to the case of ASCII letters.
pub fn str_same_ignoring_case(a: &str, b: &str) -> (r: bool)
    ensures
        r == same_ignoring_case(a@, b@),
{
    let xs = chars_of(a);
    let ys = chars_of(b);
    if xs.len() != ys.len() {
        return false;
    }
    let mut i: usize = 0;
    while i < xs.len()
        invariant
            xs@ == a@,
            ys@ == b@,
            xs.len() == ys.len(),
            i <= xs.len(),
            forall|j: int| 0 <= j < i ==> ascii_upper(#[trigger] a@[j]) == ascii_upper(#[trigger] b@[j]),
        decreases xs.len() - i,
    {
        if char_ascii_upper(xs[i]) != char_ascii_upper(ys[i]) {
            assert(ascii_upper(a@[i as int]) != ascii_upper(b@[i as int]));
            return false;
        }
        i += 1;
    }
    true
}

/// The part of `s` that is left without leading and trailing whitespace.
pub fn trim(s: &str) -> (r: &str)
    ensures
        r@ == trimmed(s@),
{
    let xs = chars_of(s);
    let n: usize = xs.len();
    let mut from: usize = 0;
    assert(s@.skip(0) =~= s@);
    while from < n && char_is_whitespace(xs[from])
        invariant
            xs@ == s@,
            n == xs.len(),
            from <= n,
            trimmed_start(s@) == trimmed_start(s@.skip(from as int)),
        decreases n - from,
    {
        proof {
            assert(s@.skip(from as int).drop_first() =~= s@.skip(from + 1));
        }
        from += 1;
    }
    let ghost core = s@.skip(from as int);
    let mut to: usize = n;
    assert(s@.subrange(from as int, n as int) =~= core);
    while to > from && char_is_whitespace(xs[to - 1])
        invariant
            xs@ == s@,
            n == xs.len(),
            from <= to <= n,
            trimmed_end(core) == trimmed_end(s@.subrange(from as int, to as int)),
        decreases to,
    {
        proof {
            assert(s@.subrange(from as int, to as int).drop_last() =~= s@.subrange(
                from as int,
                to - 1,
            ));
            assert(s@.subrange(from as int, to as int).last() == s@[to - 1]);
        }
        to -= 1;
    }
    s.substring_char(from, to)
}

/// An owned copy of an optional string.
pub fn clone_opt(s: &Option<String>) -> (r: Option<String>)
    ensures
        opt_view(r) == opt_view(*s),
{
    match s {
        Some(t) => Some(t.clone()),
        None => None,
    }
}

/// An owned copy of an optional string slice.
pub fn own_opt(s: Option<&str>) -> (r: Option<String>)
    ensures
        opt_view(r) == opt_str_view(s),
{
    match s {
        Some(t) => Some(t.to_owned()),
        None => None,
    }
}

/// No text comes before itself.
pub proof fn lemma_lex_irreflexive(a: Seq<char>)
    ensures
        !lex_lt(a, a),
    decreases a.len(),
{
    if a.len() > 0 {
        lemma_lex_irreflexive(a.drop_first());
    }
}

/// Text order is transitive.
pub proof fn lemma_lex_transitive(a: Seq<char>, b: Seq<char>, c: Seq<char>)
    requires
        lex_lt(a, b),
        lex_lt(b, c),
    ensures
        lex_lt(a, c),
    decreases a.len(),
{
    if a.len() > 0 && a[0] == b[0] && b[0] == c[0] {
        lemma_lex_transitive(a.drop_first(), b.drop_first(), c.drop_first());
    }
}

/// Of two different texts one comes before the other.
pub proof fn lemma_lex_total(a: Seq<char>, b: Seq<char>)
    ensures
        lex_lt(a, b) || lex_lt(b, a) || a == b,
    decreases a.len(),
{
    if a.len() > 0 && b.len() > 0 {
        lemma_lex_total(a.drop_first(), b.drop_first());
        if a[0] == b[0] && a.drop_first() == b.drop_first() {
            assert(a =~= seq![a[0]] + a.drop_first());
            assert(b =~= seq![b[0]] + b.drop_first());
        }
    } else {
        assert(a.len() == 0 && b.len() == 0 ==> a =~= b);
    }
}

/// Where two texts of one length are ordered, they first differ at some position
/// in that order.
pub proof fn lemma_lex_has_first_difference(a: Seq<char>, b: Seq<char>) -> (k: int)
    requires
        a.len() == b.len(),
        lex_lt(a, b),
    ensures
        0 <= k < a.len(),
        forall|i: int| 0 <= i < k ==> a[i] == b[i],
        a[k] < b[k],
    decreases a.len(),
{
    if a[0] < b[0] {
        0
    } else {
        let k = lemma_lex_has_first_difference(a.drop_first(), b.drop_first());
        assert forall|i: int| 0 <= i < k + 1 implies a[i] == b[i] by {
            if i > 0 {
                assert(a.drop_first()[i - 1] == b.drop_first()[i - 1]);
            }
        }
        k + 1
    }
}

/// Trimming a trimmed text changes nothing.
pub proof fn lemma_trim_idempotent(s: Seq<char>)
    ensures
        trimmed(trimmed(s)) == trimmed(s),
{
    lemma_trimmed_start_first(s);
    lemma_trimmed_end_shape(trimmed_start(s));
}

proof fn lemma_trimmed_start_first(s: Seq<char>)
    ensures
        trimmed_start(s).len() > 0 ==> !is_whitespace(trimmed_start(s)[0]),
    decreases s.len(),
{
    if s.len() > 0 && is_whitespace(s[0]) {
        lemma_trimmed_start_first(s.drop_first());
    }
}

proof fn lemma_trimmed_end_shape(s: Seq<char>)
    ensures
        trimmed_end(s).len() <= s.len(),
        trimmed_end(s) == s.take(trimmed_end(s).len() as int),
        trimmed_end(s).len() > 0 ==> !is_whitespace(trimmed_end(s).last()),
    decreases s.len(),
{
    if s.len() > 0 && is_whitespace(s.last()) {
        lemma_trimmed_end_shape(s.drop_last());
        let k = trimmed_end(s.drop_last()).len() as int;
        assert(s.drop_last().take(k) =~= s.take(k));
    } else {
        assert(s.take(s.len() as int) =~= s);
    }
}

/// A text that neither starts nor ends with whitespace is its own trimmed form.
pub proof fn lemma_trim_bare(s: Seq<char>)
    requires
        s.len() > 0 ==> !is_whitespace(s[0]) && !is_whitespace(s.last()),
    ensures
        trimmed(s) == s,
{
}

/// Whether two texts agree up to a position, where the first ends or has the smaller
/// character.
pub open spec fn falls_behind_at(a: Seq<char>, b: Seq<char>, k: int) -> bool {
    &&& 0 <= k <= a.len() && k < b.len()
    &&& forall|i: int| 0 <= i < k ==> a[i] == b[i]
    &&& k == a.len() || a[k] < b[k]
}

/// What comes before what: of two texts the one with the smaller character where they
/// first differ, or the one that ends there.
pub proof fn law_text_order(a: Seq<char>, b: Seq<char>)
    ensures
        lex_lt(a, b) <==> exists|k: int| falls_behind_at(a, b, k),
    decreases a.len(),
{
    if b.len() > 0 && (a.len() == 0 || a[0] < b[0]) {
        assert(falls_behind_at(a, b, 0));
    } else if b.len() > 0 {
        let c = a.drop_first();
        let d = b.drop_first();
        law_text_order(c, d);
        if lex_lt(a, b) {
            let k = choose|k: int| falls_behind_at(c, d, k);
            assert forall|i: int| 0 <= i < k + 1 implies a[i] == b[i] by {
                if i > 0 {
                    assert(c[i - 1] == d[i - 1]);
                }
            }
            if k < c.len() {
                assert(c[k] == a[k + 1] && d[k] == b[k + 1]);
            }
            assert(falls_behind_at(a, b, k + 1));
        }
        if exists|k: int| falls_behind_at(a, b, k) {
            let k = choose|k: int| falls_behind_at(a, b, k);
            assert(k > 0);
            assert(a[0] == b[0]);
            assert forall|i: int| 0 <= i < k - 1 implies c[i] == d[i] by {
                assert(a[i + 1] == b[i + 1]);
            }
            if k < a.len() {
                assert(c[k - 1] == a[k] && d[k - 1] == b[k]);
            }
            assert(falls_behind_at(c, d, k - 1));
        }
    }
}

/// When two texts agree up to the case of letters: exactly when they have one length
/// and differ, if at all, in a letter from `a` to `z` in one and its upper-case form
/// in the other.
pub proof fn law_case_of_letters(a: Seq<char>, b: Seq<char>)
    ensures
        same_ignoring_case(a, b) <==> a.len() == b.len() && forall|i: int|
            0 <= i < a.len() ==> ((#[trigger] a[i]) == b[i] || ('a' <= a[i] <= 'z' && b[i] as int
                == a[i] as int - 32) || ('a' <= b[i] <= 'z' && a[i] as int == b[i] as int - 32)),
{
    assert forall|x: char, y: char| ascii_upper(x) == ascii_upper(y) <==> (x == y || ('a' <= x
        <= 'z' && y as int == x as int - 32) || ('a' <= y <= 'z' && x as int == y as int - 32)) by {}
    if same_ignoring_case(a, b) {
        assert forall|i: int| 0 <= i < a.len() implies ((#[trigger] a[i]) == b[i] || ('a' <= a[i]
            <= 'z' && b[i] as int == a[i] as int - 32) || ('a' <= b[i] <= 'z' && a[i] as int
            == b[i] as int - 32)) by {
            assert(ascii_upper(a[i]) == ascii_upper(b[i]));
        }
    }
}

/// What trimming leaves: the text without the whitespace at its ends, and nothing more
/// taken off.
pub proof fn law_trimming_takes_off_the_ends(s: Seq<char>) -> (r: (int, int))
    ensures
        0 <= r.0 <= r.1 <= s.len(),
        trimmed(s) == s.subrange(r.0, r.1),
        forall|i: int| 0 <= i < r.0 || r.1 <= i < s.len() ==> is_whitespace(#[trigger] s[i]),
        r.0 < r.1 ==> !is_whitespace(s[r.0]) && !is_whitespace(s[r.1 - 1]),
{
    let a = lemma_start_of_trimmed(s);
    let t = trimmed_start(s);
    lemma_trimmed_end_shape(t);
    lemma_end_of_trimmed(t);
    lemma_trimmed_start_first(s);
    let k = trimmed_end(t).len() as int;
    assert(trimmed(s) =~= s.subrange(a, a + k));
    assert forall|i: int| 0 <= i < a || a + k <= i < s.len() implies is_whitespace(
        #[trigger] s[i],
    ) by {
        if i >= a + k {
            assert(t[i - a] == s[i]);
        }
    }
    if k > 0 {
        assert(trimmed_end(t).last() == t[k - 1]);
        assert(t[0] == s[a] && t[k - 1] == s[a + k - 1]);
    }
    (a, a + k)
}

proof fn lemma_start_of_trimmed(s: Seq<char>) -> (a: int)
    ensures
        0 <= a <= s.len(),
        trimmed_start(s) == s.skip(a),
        forall|i: int| 0 <= i < a ==> is_whitespace(#[trigger] s[i]),
    decreases s.len(),
{
    if s.len() > 0 && is_whitespace(s[0]) {
        let t = s.drop_first();
        let a = lemma_start_of_trimmed(t);
        assert(t.skip(a) =~= s.skip(a + 1));
        assert forall|i: int| 0 <= i < a + 1 implies is_whitespace(#[trigger] s[i]) by {
            if i > 0 {
                assert(s[i] == t[i - 1]);
            }
        }
        a + 1
    } else {
        assert(s.skip(0) =~= s);
        0
    }
}

proof fn lemma_end_of_trimmed(s: Seq<char>)
    ensures
        forall|i: int| trimmed_end(s).len() <= i < s.len() ==> is_whitespace(#[trigger] s[i]),
    decreases s.len(),
{
    if s.len() > 0 && is_whitespace(s.last()) {
        let t = s.drop_last();
        lemma_end_of_trimmed(t);
        assert forall|i: int| trimmed_end(s).len() <= i < s.len() implies is_whitespace(
            #[trigger] s[i],
        ) by {
            if i < t.len() {
                assert(s[i] == t[i]);
            }
        }
    }
}

} // verus!

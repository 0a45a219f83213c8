//! Character-level text utilities used by the card-data parser: splitting,
//! line breaking, substring search, ASCII lower-casing and decimal parsing.
//! Every function here is stated over `Seq<char>` views.

use vstd::prelude::*;
use vstd::multiset::Multiset;
use vstd::relations::{sorted_by, total_ordering};

verus! {

// ---------------------------------------------------------------------------
// Splitting
// ---------------------------------------------------------------------------

/// The pieces of `s` between occurrences of `sep`, as `str::split` yields them:
/// always at least one piece, empty pieces included.
pub open spec fn split_seq(s: Seq<char>, sep: char) -> Seq<Seq<char>>
    decreases s.len(),
{
    if s.len() == 0 {
        seq![Seq::<char>::empty()]
    } else {
        let r = split_seq(s.drop_last(), sep);
        if s.last() == sep {
            r.push(Seq::<char>::empty())
        } else {
            r.update(r.len() - 1, r.last().push(s.last()))
        }
    }
}

pub proof fn lemma_split_nonempty(s: Seq<char>, sep: char)
    ensures
        split_seq(s, sep).len() >= 1,
    decreases s.len(),
{
    if s.len() > 0 {
        lemma_split_nonempty(s.drop_last(), sep);
    }
}

/// The items of a `|`-separated list field; an empty field is the empty list.
pub open spec fn list_items(s: Seq<char>) -> Seq<Seq<char>> {
    if s.len() == 0 {
        Seq::empty()
    } else {
        split_seq(s, '|')
    }
}

/// Drops one trailing carriage return.
pub open spec fn strip_cr(l: Seq<char>) -> Seq<char> {
    if l.len() > 0 && l.last() == '\r' {
        l.drop_last()
    } else {
        l
    }
}

/// The lines of `t`, as `str::lines` yields them: split on `'\n'`, no final empty
/// line after a trailing newline, and a `'\r'` before a newline removed.
pub open spec fn lines_seq(t: Seq<char>) -> Seq<Seq<char>> {
    let ps = split_seq(t, '\n');
    let n = ps.len();
    if ps[n - 1].len() == 0 {
        Seq::new((n - 1) as nat, |i: int| strip_cr(ps[i]))
    } else {
        Seq::new(n, |i: int| if i < n - 1 { strip_cr(ps[i]) } else { ps[i] })
    }
}

/// Char ranges `[a, b)` of `s` that are the pieces of `s[from..to]` split at `sep`.
pub open spec fn ranges_match_split(
    s: Seq<char>,
    from: int,
    to: int,
    ranges: Seq<(usize, usize)>,
    sep: char,
) -> bool {
    let parts = split_seq(s.subrange(from, to), sep);
    &&& ranges.len() == parts.len()
    &&& forall|k: int|
        0 <= k < ranges.len() ==> {
            &&& from <= (#[trigger] ranges[k]).0 <= ranges[k].1 <= to
            &&& s.subrange(ranges[k].0 as int, ranges[k].1 as int) == parts[k]
        }
}

/// Splits `s[from..to]` at `sep`, returning the char range of every piece.
pub fn split_ranges(s: &Vec<char>, from: usize, to: usize, sep: char) -> (r: Vec<(usize, usize)>)
    requires
        from <= to <= s@.len(),
    ensures
        ranges_match_split(s@, from as int, to as int, r@, sep),
{
    let mut out: Vec<(usize, usize)> = Vec::new();
    let mut start: usize = from;
    let mut i: usize = from;
    while i < to
        invariant
            from <= start <= i <= to <= s@.len(),
            ({
                let parts = split_seq(s@.subrange(from as int, i as int), sep);
                &&& parts.len() == out@.len() + 1
                &&& parts.last() == s@.subrange(start as int, i as int)
                &&& forall|k: int|
                    0 <= k < out@.len() ==> {
                        &&& from <= (#[trigger] out@[k]).0 <= out@[k].1 <= i
                        &&& s@.subrange(out@[k].0 as int, out@[k].1 as int) == parts[k]
                    }
            }),
        decreases to - i,
    {
        let ghost prev = s@.subrange(from as int, i as int);
        let ghost next = s@.subrange(from as int, i + 1);
        assert(next.drop_last() =~= prev);
        assert(next.last() == s@[i as int]);
        proof {
            lemma_split_nonempty(prev, sep);
        }
        if s[i] == sep {
            out.push((start, i));
            start = i + 1;
            assert(s@.subrange(start as int, i + 1) =~= Seq::<char>::empty());
        } else {
            assert(s@.subrange(start as int, i + 1) =~= s@.subrange(start as int, i as int).push(
                s@[i as int],
            ));
        }
        i = i + 1;
    }
    out.push((start, to));
    proof {
        let parts = split_seq(s@.subrange(from as int, to as int), sep);
        assert forall|k: int| 0 <= k < out@.len() implies {
            &&& from <= (#[trigger] out@[k]).0 <= out@[k].1 <= to
            &&& s@.subrange(out@[k].0 as int, out@[k].1 as int) == parts[k]
        } by {}
    }
    out
}

// ---------------------------------------------------------------------------
// Characters
// ---------------------------------------------------------------------------

/// Every char of `s`, in order.
pub fn chars_of(s: &str) -> (r: Vec<char>)
    ensures
        r@ == s@,
{
    let n = s.unicode_len();
    let mut out: Vec<char> = Vec::new();
    let mut i: usize = 0;
    while i < n
        invariant
            n == s@.len(),
            i <= n,
            out@ == s@.subrange(0, i as int),
        decreases n - i,
    {
        out.push(s.get_char(i));
        i = i + 1;
        assert(out@ =~= s@.subrange(0, i as int));
    }
    assert(out@ =~= s@);
    out
}

/// The owned string made of the chars `s[a..b]`.
pub fn string_of_range(text: &str, a: usize, b: usize) -> (r: String)
    requires
        a <= b <= text@.len(),
    ensures
        r@ == text@.subrange(a as int, b as int),
{
    let piece = text.substring_char(a, b);
    String::from_str(piece)
}

/// Whether two strings hold the same chars.
pub fn str_eq(x: &str, y: &str) -> (r: bool)
    ensures
        r == (x@ == y@),
{
    let a = String::from_str(x);
    let b = String::from_str(y);
    a == b
}

/// `char::is_whitespace`: the Unicode `White_Space` characters.
pub open spec fn is_white(c: char) -> bool {
    let u = c as u32;
    ||| 9 <= u <= 13
    ||| u == 32
    ||| u == 0x85
    ||| u == 0xA0
    ||| u == 0x1680
    ||| 0x2000 <= u <= 0x200A
    ||| u == 0x2028
    ||| u == 0x2029
    ||| u == 0x202F
    ||| u == 0x205F
    ||| u == 0x3000
}

pub fn char_is_white(c: char) -> (r: bool)
    ensures
        r == is_white(c),
{
    let u = c as u32;
    (9 <= u && u <= 13) || u == 32 || u == 0x85 || u == 0xA0 || u == 0x1680 || (0x2000 <= u && u
        <= 0x200A) || u == 0x2028 || u == 0x2029 || u == 0x202F || u == 0x205F || u == 0x3000
}

/// `s.trim().is_empty()`: every char of `s` is whitespace.
pub open spec fn blank(s: Seq<char>) -> bool {
    forall|i: int| 0 <= i < s.len() ==> is_white(#[trigger] s[i])
}

pub fn range_is_blank(s: &Vec<char>, a: usize, b: usize) -> (r: bool)
    requires
        a <= b <= s@.len(),
    ensures
        r == blank(s@.subrange(a as int, b as int)),
{
    let mut i = a;
    while i < b
        invariant
            a <= i <= b <= s@.len(),
            forall|j: int| a <= j < i ==> is_white(#[trigger] s@[j]),
        decreases b - i,
    {
        if !char_is_white(s[i]) {
            assert(s@.subrange(a as int, b as int)[i - a] == s@[i as int]);
            return false;
        }
        i = i + 1;
    }
    assert forall|j: int| 0 <= j < b - a implies is_white(
        #[trigger] s@.subrange(a as int, b as int)[j],
    ) by {
        assert(s@.subrange(a as int, b as int)[j] == s@[a + j]);
    }
    true
}

/// `char::to_ascii_lowercase`.
pub open spec fn lower_char(c: char) -> char {
    let u = c as u32;
    if 65 <= u <= 90 {
        ((u + 32) as u8) as char
    } else {
        c
    }
}

pub open spec fn lower_seq(s: Seq<char>) -> Seq<char> {
    s.map_values(|c: char| lower_char(c))
}

/// `str::to_ascii_lowercase`, on chars.
pub fn to_lower(s: &Vec<char>) -> (r: Vec<char>)
    ensures
        r@ == lower_seq(s@),
{
    let mut out: Vec<char> = Vec::new();
    let mut i: usize = 0;
    while i < s.len()
        invariant
            i <= s@.len(),
            out@ == lower_seq(s@.subrange(0, i as int)),
        decreases s@.len() - i,
    {
        let c = s[i];
        let u = c as u32;
        let l = if 65 <= u && u <= 90 {
            ((u + 32) as u8) as char
        } else {
            c
        };
        out.push(l);
        i = i + 1;
        assert(out@ =~= lower_seq(s@.subrange(0, i as int)));
    }
    assert(s@.subrange(0, s@.len() as int) =~= s@);
    out
}

// ---------------------------------------------------------------------------
// Substring search
// ---------------------------------------------------------------------------

/// `needle` occurs in `hay` (as `str::contains` with a string pattern).
pub open spec fn occurs_at(hay: Seq<char>, needle: Seq<char>, i: int) -> bool {
    0 <= i && i + needle.len() <= hay.len() && hay.subrange(i, i + needle.len()) == needle
}

pub open spec fn contains_seq(hay: Seq<char>, needle: Seq<char>) -> bool {
    exists|i: int| occurs_at(hay, needle, i)
}

pub fn contains_str(hay: &Vec<char>, needle: &str) -> (r: bool)
    ensures
        r == contains_seq(hay@, needle@),
{
    let nd = chars_of(needle);
    let n = hay.len();
    let m = nd.len();
    if m > n {
        assert forall|i: int| !occurs_at(hay@, needle@, i) by {}
        return false;
    }
    let mut i: usize = 0;
    while i <= n - m
        invariant
            n == hay@.len(),
            m == nd@.len(),
            nd@ == needle@,
            m <= n,
            i <= n - m + 1,
            forall|k: int| 0 <= k < i ==> !occurs_at(hay@, needle@, k),
        decreases n - m + 1 - i,
    {
        let mut j: usize = 0;
        let mut ok = true;
        while j < m
            invariant
                n == hay@.len(),
                m == nd@.len(),
                i + m <= n,
                j <= m,
                ok == (forall|t: int| 0 <= t < j ==> hay@[i + t] == nd@[t]),
            decreases m - j,
        {
            if hay[i + j] != nd[j] {
                ok = false;
            }
            j = j + 1;
        }
        if ok {
            assert(hay@.subrange(i as int, i + m) =~= needle@);
            assert(occurs_at(hay@, needle@, i as int));
            return true;
        }
        assert(!occurs_at(hay@, needle@, i as int)) by {
            if hay@.subrange(i as int, i + m) == needle@ {
                assert forall|t: int| 0 <= t < m implies hay@[i + t] == nd@[t] by {
                    assert(hay@.subrange(i as int, i + m)[t] == hay@[i + t]);
                }
            }
        }
        i = i + 1;
    }
    assert forall|k: int| !occurs_at(hay@, needle@, k) by {
        if occurs_at(hay@, needle@, k) {
            assert(k < i);
        }
    }
    false
}

// ---------------------------------------------------------------------------
// Decimal numbers
// ---------------------------------------------------------------------------

pub open spec fn is_digit(c: char) -> bool {
    48 <= (c as u32) <= 57
}

pub open spec fn digit_val(c: char) -> int {
    (c as u32) - 48
}

pub open spec fn all_digits(s: Seq<char>) -> bool {
    forall|i: int| 0 <= i < s.len() ==> is_digit(#[trigger] s[i])
}

/// The value of a run of decimal digits.
pub open spec fn digits_value(s: Seq<char>) -> int
    decreases s.len(),
{
    if s.len() == 0 {
        0
    } else {
        digits_value(s.drop_last()) * 10 + digit_val(s.last())
    }
}

/// The integer that `from_str` reads from `s`: an optional sign (`-` only when
/// `signed`), then one or more ASCII digits, nothing else.
pub open spec fn int_value(s: Seq<char>, signed: bool) -> Option<int> {
    if s.len() == 0 {
        None
    } else {
        let neg = signed && s[0] == '-';
        let body = if s[0] == '+' || neg {
            s.drop_first()
        } else {
            s
        };
        if body.len() == 0 || !all_digits(body) {
            None
        } else {
            Some(
                if neg {
                    -digits_value(body)
                } else {
                    digits_value(body)
                },
            )
        }
    }
}

/// `i32::from_str(s).ok()`.
pub open spec fn parse_i32_spec(s: Seq<char>) -> Option<i32> {
    match int_value(s, true) {
        Some(v) => if i32::MIN <= v <= i32::MAX {
            Some(v as i32)
        } else {
            None
        },
        None => None,
    }
}

/// `u8::from_str(s).ok()`.
pub open spec fn parse_u8_spec(s: Seq<char>) -> Option<u8> {
    match int_value(s, false) {
        Some(v) => if 0 <= v <= u8::MAX {
            Some(v as u8)
        } else {
            None
        },
        None => None,
    }
}

spec fn capped(v: int) -> int {
    if v < 0x1_0000_0001 {
        v
    } else {
        0x1_0000_0001
    }
}

proof fn lemma_digits_nonneg(s: Seq<char>)
    requires
        all_digits(s),
    ensures
        digits_value(s) >= 0,
    decreases s.len(),
{
    if s.len() > 0 {
        assert(is_digit(s[s.len() - 1]));
        lemma_digits_nonneg(s.drop_last());
    }
}

/// Reads the digits `s[a..b]`: `(all digits, min(value, 2^32 + 1))`.
fn digits_capped(s: &Vec<char>, a: usize, b: usize) -> (r: (bool, u64))
    requires
        a <= b <= s@.len(),
    ensures
        r.0 == all_digits(s@.subrange(a as int, b as int)),
        r.0 ==> r.1 == capped(digits_value(s@.subrange(a as int, b as int))),
{
    let mut acc: u64 = 0;
    let mut i = a;
    while i < b
        invariant
            a <= i <= b <= s@.len(),
            all_digits(s@.subrange(a as int, i as int)),
            acc == capped(digits_value(s@.subrange(a as int, i as int))),
        decreases b - i,
    {
        let c = s[i];
        let u = c as u32;
        let ghost pre = s@.subrange(a as int, i as int);
        let ghost nxt = s@.subrange(a as int, i + 1);
        assert(nxt.drop_last() =~= pre);
        if u < 48 || u > 57 {
            assert(!is_digit(s@.subrange(a as int, b as int)[i - a]));
            return (false, 0);
        }
        proof {
            lemma_digits_nonneg(pre);
            assert(all_digits(nxt));
        }
        let d = (u - 48) as u64;
        let cap: u64 = 0x1_0000_0001;
        acc = if acc >= cap {
            cap
        } else {
            let v = acc * 10 + d;
            if v >= cap {
                cap
            } else {
                v
            }
        };
        i = i + 1;
    }
    (true, acc)
}

/// `i32::from_str` on `s[a..b]`, as an `Option`.
pub fn parse_i32_range(s: &Vec<char>, a: usize, b: usize) -> (r: Option<i32>)
    requires
        a <= b <= s@.len(),
    ensures
        r == parse_i32_spec(s@.subrange(a as int, b as int)),
{
    let ghost t = s@.subrange(a as int, b as int);
    if a == b {
        return None;
    }
    let neg = s[a] == '-';
    let start = if s[a] == '+' || neg {
        a + 1
    } else {
        a
    };
    let ghost body = s@.subrange(start as int, b as int);
    assert(body =~= (if t[0] == '+' || neg {
        t.drop_first()
    } else {
        t
    }));
    if start == b {
        return None;
    }
    let (ok, v) = digits_capped(s, start, b);
    if !ok {
        return None;
    }
    proof {
        lemma_digits_nonneg(body);
    }
    if neg {
        if v > 0x8000_0000 {
            None
        } else {
            let x = 0i64 - (v as i64);
            Some(x as i32)
        }
    } else {
        if v > 0x7fff_ffff {
            None
        } else {
            Some(v as i32)
        }
    }
}

/// `u8::from_str` on `s[a..b]`, as an `Option`.
pub fn parse_u8_range(s: &Vec<char>, a: usize, b: usize) -> (r: Option<u8>)
    requires
        a <= b <= s@.len(),
    ensures
        r == parse_u8_spec(s@.subrange(a as int, b as int)),
{
    let ghost t = s@.subrange(a as int, b as int);
    if a == b {
        return None;
    }
    let start = if s[a] == '+' {
        a + 1
    } else {
        a
    };
    let ghost body = s@.subrange(start as int, b as int);
    assert(body =~= (if t[0] == '+' {
        t.drop_first()
    } else {
        t
    }));
    if start == b {
        return None;
    }
    let (ok, v) = digits_capped(s, start, b);
    if !ok {
        return None;
    }
    proof {
        lemma_digits_nonneg(body);
    }
    if v > 255 {
        None
    } else {
        Some(v as u8)
    }
}

// ---------------------------------------------------------------------------
// Ordering of texts
// ---------------------------------------------------------------------------

/// Lexicographic order of texts by code point (the order of `str`/`String`,
/// whose byte-wise comparison of UTF-8 agrees with code-point order).
pub open spec fn text_le(a: Seq<char>, b: Seq<char>) -> bool
    decreases a.len(),
{
    if a.len() == 0 {
        true
    } else if b.len() == 0 {
        false
    } else if a[0] != b[0] {
        (a[0] as int) < (b[0] as int)
    } else {
        text_le(a.drop_first(), b.drop_first())
    }
}

pub open spec fn text_order() -> spec_fn(Seq<char>, Seq<char>) -> bool {
    |a: Seq<char>, b: Seq<char>| text_le(a, b)
}

proof fn lemma_text_le_refl(a: Seq<char>)
    ensures
        text_le(a, a),
    decreases a.len(),
{
    if a.len() > 0 {
        lemma_text_le_refl(a.drop_first());
    }
}

proof fn lemma_text_le_antisym(a: Seq<char>, b: Seq<char>)
    requires
        text_le(a, b),
        text_le(b, a),
    ensures
        a == b,
    decreases a.len(),
{
    if a.len() > 0 && b.len() > 0 {
        if a[0] == b[0] {
            lemma_text_le_antisym(a.drop_first(), b.drop_first());
            assert(a =~= seq![a[0]] + a.drop_first());
            assert(b =~= seq![b[0]] + b.drop_first());
        }
    }
    if a.len() == 0 {
        assert(b.len() == 0 || !text_le(b, a));
        assert(a =~= b);
    }
}

proof fn lemma_text_le_trans(a: Seq<char>, b: Seq<char>, c: Seq<char>)
    requires
        text_le(a, b),
        text_le(b, c),
    ensures
        text_le(a, c),
    decreases a.len(),
{
    if a.len() > 0 && b.len() > 0 && c.len() > 0 {
        if a[0] == b[0] && b[0] == c[0] {
            lemma_text_le_trans(a.drop_first(), b.drop_first(), c.drop_first());
        }
    }
}

proof fn lemma_text_le_total(a: Seq<char>, b: Seq<char>)
    ensures
        text_le(a, b) || text_le(b, a),
    decreases a.len(),
{
    if a.len() > 0 && b.len() > 0 {
        if a[0] == b[0] {
            lemma_text_le_total(a.drop_first(), b.drop_first());
        }
    }
}

pub proof fn lemma_text_order_total()
    ensures
        total_ordering(text_order()),
{
    assert forall|a: Seq<char>| #[trigger] text_order()(a, a) by {
        lemma_text_le_refl(a);
    }
    assert forall|a: Seq<char>, b: Seq<char>|
        #[trigger] text_order()(a, b) && #[trigger] text_order()(b, a) implies a == b by {
        lemma_text_le_antisym(a, b);
    }
    assert forall|a: Seq<char>, b: Seq<char>, c: Seq<char>|
        #[trigger] text_order()(a, b) && #[trigger] text_order()(b, c) implies text_order()(
        a,
        c,
    ) by {
        lemma_text_le_trans(a, b, c);
    }
    assert forall|a: Seq<char>, b: Seq<char>|
        #[trigger] text_order()(a, b) || #[trigger] text_order()(b, a) by {
        lemma_text_le_total(a, b);
    }
}

/// Whether `a` comes no later than `b` in text order.
pub fn chars_le(a: &Vec<char>, b: &Vec<char>) -> (r: bool)
    ensures
        r == text_le(a@, b@),
{
    let mut i: usize = 0;
    assert(a@.skip(0) =~= a@);
    assert(b@.skip(0) =~= b@);
    while i < a.len() && i < b.len() && a[i] == b[i]
        invariant
            i <= a@.len(),
            i <= b@.len(),
            text_le(a@, b@) == text_le(a@.skip(i as int), b@.skip(i as int)),
        decreases a@.len() - i,
    {
        assert(a@.skip(i as int).drop_first() =~= a@.skip(i + 1));
        assert(b@.skip(i as int).drop_first() =~= b@.skip(i + 1));
        i = i + 1;
    }
    if i == a.len() {
        true
    } else if i == b.len() {
        false
    } else {
        a[i] < b[i]
    }
}

pub open spec fn views_of<T: View<V = Seq<char>>>(s: Seq<T>) -> Seq<Seq<char>> {
    s.map_values(|x: T| x@)
}

pub proof fn lemma_insert_multiset<A>(s: Seq<A>, k: int, x: A)
    requires
        0 <= k <= s.len(),
    ensures
        s.insert(k, x).to_multiset() =~= s.to_multiset().insert(x),
{
    broadcast use vstd::seq_lib::group_to_multiset_ensures;
    broadcast use vstd::multiset::group_multiset_axioms;
    let a = s.take(k);
    let b = s.skip(k);
    assert(s =~= a + b);
    assert(s.insert(k, x) =~= a.push(x) + b);
    vstd::seq_lib::lemma_multiset_commutative(a.push(x), b);
    vstd::seq_lib::lemma_multiset_commutative(a, b);
}

/// The values of `vals` sorted in text order (stable), given each value's chars
/// in `keys`.
pub fn sort_texts<T: View<V = Seq<char>>>(vals: Vec<T>, keys: Vec<Vec<char>>) -> (r: Vec<T>)
    requires
        keys@.len() == vals@.len(),
        forall|i: int| 0 <= i < keys@.len() ==> (#[trigger] keys@[i])@ == vals@[i]@,
    ensures
        views_of(r@) == views_of(vals@).sort_by(text_order()),
{
    let mut out: Vec<T> = Vec::new();
    let mut out_keys: Vec<Vec<char>> = Vec::new();
    let mut vals = vals;
    let mut keys = keys;
    let ghost orig = views_of(vals@);
    proof {
        lemma_text_order_total();
        broadcast use vstd::seq_lib::group_to_multiset_ensures;
        broadcast use vstd::multiset::group_multiset_axioms;
        assert(views_of(out@) =~= Seq::<Seq<char>>::empty());
        vstd::multiset::lemma_multiset_empty_len(views_of(out@).to_multiset());
        assert(views_of(vals@).to_multiset().add(views_of(out@).to_multiset()) =~= orig.to_multiset());
    }
    // Consume from the back so that each step is a `pop`; keep stability by
    // inserting each new element before every element that is not smaller.
    while vals.len() > 0
        invariant
            total_ordering(text_order()),
            keys@.len() == vals@.len(),
            forall|i: int| 0 <= i < keys@.len() ==> (#[trigger] keys@[i])@ == vals@[i]@,
            out_keys@.len() == out@.len(),
            forall|i: int| 0 <= i < out_keys@.len() ==> (#[trigger] out_keys@[i])@ == out@[i]@,
            sorted_by(views_of(out@), text_order()),
            views_of(vals@).to_multiset().add(views_of(out@).to_multiset()) == orig.to_multiset(),
        decreases vals@.len(),
    {
        let ghost pre_vals = views_of(vals@);
        let ghost pre_out = views_of(out@);
        let v = vals.pop().unwrap();
        let k = keys.pop().unwrap();
        assert(pre_vals =~= views_of(vals@).push(v@));
        // find the first position whose key is not below `k`
        let mut pos: usize = 0;
        while pos < out_keys.len() && !chars_le(&k, &out_keys[pos])
            invariant
                out_keys@.len() == out@.len(),
                forall|i: int| 0 <= i < out_keys@.len() ==> (#[trigger] out_keys@[i])@ == out@[i]@,
                pos <= out@.len(),
                forall|i: int| 0 <= i < pos ==> !text_le(k@, (#[trigger] out@[i])@),
            decreases out@.len() - pos,
        {
            pos = pos + 1;
        }
        out.insert(pos, v);
        out_keys.insert(pos, k);
        proof {
            let nv = views_of(out@);
            assert(nv =~= pre_out.insert(pos as int, k@));
            lemma_insert_multiset(pre_out, pos as int, k@);
            assert forall|i: int, j: int| 0 <= i < j < nv.len() implies #[trigger] text_order()(
                nv[i],
                nv[j],
            ) by {
                if j < pos {
                    assert(text_order()(pre_out[i], pre_out[j]));
                } else if i > pos {
                    assert(text_order()(pre_out[i - 1], pre_out[j - 1]));
                } else if i == pos {
                    assert(text_order()(k@, pre_out[pos as int]));
                    if j - 1 > pos {
                        assert(text_order()(pre_out[pos as int], pre_out[j - 1]));
                    }
                } else if j == pos {
                    assert(!text_le(k@, pre_out[i]));
                    assert(text_order()(pre_out[i], k@) || text_order()(k@, pre_out[i]));
                } else {
                    assert(text_order()(pre_out[i], pre_out[j - 1]));
                }
            }
            assert(views_of(vals@).to_multiset().insert(k@) =~= pre_vals.to_multiset()) by {
                broadcast use vstd::seq_lib::group_to_multiset_ensures;
            }
            broadcast use vstd::multiset::group_multiset_axioms;
            assert(views_of(vals@).to_multiset().add(nv.to_multiset()) =~= orig.to_multiset());
        }
    }
    proof {
        assert(views_of(vals@) =~= Seq::<Seq<char>>::empty());
        broadcast use vstd::seq_lib::group_to_multiset_ensures;
        broadcast use vstd::multiset::group_multiset_axioms;
        vstd::multiset::lemma_multiset_empty_len(views_of(vals@).to_multiset());
        assert(views_of(vals@).to_multiset() =~= Multiset::<Seq<char>>::empty());
        assert(views_of(out@).to_multiset() =~= orig.to_multiset());
        orig.lemma_sort_by_ensures(text_order());
        vstd::seq_lib::lemma_sorted_unique(views_of(out@), orig.sort_by(text_order()), text_order());
    }
    out
}

} // verus!

//! Deck building for the Aurora optimiser: the candidate pool of attacks, a
//! build (card quantities keyed by identifier), the starting build, and the
//! single-card swaps that the hill climb searches.

use crate::card::{card_is_attack, strs, Card, CardView};
use crate::types::{Class, Talent};
use crate::db::{ids_unique, lookup, CardDb};
use crate::text::{
    chars_le, chars_of, lemma_text_order_total, sort_texts, str_eq, text_le, text_order, views_of,
};
use vstd::prelude::*;
use vstd::multiset::Multiset;
use vstd::relations::{sorted_by, total_ordering};

verus! {

/// Cards in a main deck.
pub const DECK_SIZE: u32 = 60;

/// Copies allowed of one card name.
pub const MAX_PER_NAME: u32 = 3;

/// A build as the sequence of (identifier, copies), in identifier order.
pub open spec fn entry_views(v: Seq<(String, u32)>) -> Seq<(Seq<char>, u32)> {
    v.map_values(|e: (String, u32)| (e.0@, e.1))
}

/// Identifiers strictly increase in text order.
pub open spec fn keys_sorted(s: Seq<(Seq<char>, u32)>) -> bool {
    forall|i: int, j: int|
        0 <= i < j < s.len() ==> text_le(#[trigger] s[i].0, #[trigger] s[j].0) && s[i].0 != s[j].0
}

/// Total number of copies.
pub open spec fn total_of(s: Seq<(Seq<char>, u32)>) -> nat
    decreases s.len(),
{
    if s.len() == 0 {
        0
    } else {
        total_of(s.drop_last()) + s.last().1 as nat
    }
}

/// A well-formed build: sorted distinct identifiers, each with at least one
/// copy, and a total that fits in a `u32`.
pub open spec fn build_ok(s: Seq<(Seq<char>, u32)>) -> bool {
    &&& keys_sorted(s)
    &&& forall|i: int| 0 <= i < s.len() ==> #[trigger] s[i].1 > 0
    &&& total_of(s) <= u32::MAX
}

/// The first index at or after `i` whose identifier is `id`.
pub open spec fn key_index(s: Seq<(Seq<char>, u32)>, id: Seq<char>, i: int) -> Option<int>
    decreases s.len() - i,
{
    if i < 0 || i >= s.len() {
        None
    } else if s[i].0 == id {
        Some(i)
    } else {
        key_index(s, id, i + 1)
    }
}

/// Copies of `id` in the build.
pub open spec fn count_of(s: Seq<(Seq<char>, u32)>, id: Seq<char>) -> nat {
    match key_index(s, id, 0) {
        Some(k) => s[k].1 as nat,
        None => 0,
    }
}

/// The first index at or after `i` whose identifier is not strictly below `id`.
pub open spec fn first_not_below(s: Seq<(Seq<char>, u32)>, id: Seq<char>, i: int) -> int
    decreases s.len() - i,
{
    if i < 0 || i >= s.len() {
        s.len() as int
    } else if text_le(s[i].0, id) && s[i].0 != id {
        first_not_below(s, id, i + 1)
    } else {
        i
    }
}

/// The build with one more copy of `id`.
pub open spec fn add_spec(s: Seq<(Seq<char>, u32)>, id: Seq<char>) -> Seq<(Seq<char>, u32)> {
    match key_index(s, id, 0) {
        Some(k) => s.update(k, (id, (s[k].1 + 1) as u32)),
        None => s.insert(first_not_below(s, id, 0), (id, 1u32)),
    }
}

/// The build with one copy of `id` fewer; an identifier with no copy left goes.
pub open spec fn remove_spec(s: Seq<(Seq<char>, u32)>, id: Seq<char>) -> Seq<(Seq<char>, u32)> {
    match key_index(s, id, 0) {
        Some(k) => if s[k].1 > 1 {
            s.update(k, (id, (s[k].1 - 1) as u32))
        } else {
            s.remove(k)
        },
        None => s,
    }
}

/// The main deck a build stands for: each identifier repeated by its count,
/// in identifier order.
pub open spec fn cards_of(s: Seq<(Seq<char>, u32)>) -> Seq<Seq<char>>
    decreases s.len(),
{
    if s.len() == 0 {
        Seq::empty()
    } else {
        cards_of(s.drop_last()) + Seq::new(s.last().1 as nat, |_i: int| s.last().0)
    }
}

/// Total copies of the identifiers that `keep` selects.
pub open spec fn filtered_total(s: Seq<(Seq<char>, u32)>, keep: spec_fn(Seq<char>) -> bool) -> nat
    decreases s.len(),
{
    if s.len() == 0 {
        0
    } else {
        filtered_total(s.drop_last(), keep) + if keep(s.last().0) {
            s.last().1 as nat
        } else {
            0
        }
    }
}

proof fn lemma_filtered_le_total(s: Seq<(Seq<char>, u32)>, keep: spec_fn(Seq<char>) -> bool)
    ensures
        filtered_total(s, keep) <= total_of(s),
    decreases s.len(),
{
    if s.len() > 0 {
        lemma_filtered_le_total(s.drop_last(), keep);
    }
}

proof fn lemma_total_prefix(s: Seq<(Seq<char>, u32)>, i: int)
    requires
        0 <= i <= s.len(),
    ensures
        total_of(s.take(i)) <= total_of(s),
{
    lemma_total_append(s.take(i), s.skip(i));
    assert(s.take(i) + s.skip(i) =~= s);
}

/// The first index at or after `i` of the text `x` in `s`.
pub open spec fn text_index(s: Seq<Seq<char>>, x: Seq<char>, i: int) -> Option<int>
    decreases s.len() - i,
{
    if i < 0 || i >= s.len() {
        None
    } else if s[i] == x {
        Some(i)
    } else {
        text_index(s, x, i + 1)
    }
}

proof fn lemma_text_index(s: Seq<Seq<char>>, x: Seq<char>, i: int)
    requires
        0 <= i <= s.len(),
    ensures
        match text_index(s, x, i) {
            Some(k) => i <= k < s.len() && s[k] == x && forall|j: int| i <= j < k ==> s[j] != x,
            None => forall|j: int| i <= j < s.len() ==> s[j] != x,
        },
    decreases s.len() - i,
{
    if i < s.len() {
        lemma_text_index(s, x, i + 1);
    }
}

/// The name that the pool gives identifier `id`.
pub open spec fn pool_name(ids: Seq<Seq<char>>, names: Seq<Seq<char>>, id: Seq<char>) -> Option<
    Seq<char>,
> {
    match text_index(ids, id, 0) {
        Some(k) => Some(names[k]),
        None => None,
    }
}

/// Copies in the build of the pool's cards named `name`.
pub open spec fn name_total_of(
    s: Seq<(Seq<char>, u32)>,
    ids: Seq<Seq<char>>,
    names: Seq<Seq<char>>,
    name: Seq<char>,
) -> nat {
    filtered_total(s, |id: Seq<char>| pool_name(ids, names, id) == Some(name))
}

/// Copies in the build whose card pitches for `v`.
pub open spec fn pitch_total_of(db: Seq<CardView>, s: Seq<(Seq<char>, u32)>, v: u8) -> nat {
    filtered_total(s, pitch_is(db, v))
}

proof fn lemma_key_index(s: Seq<(Seq<char>, u32)>, id: Seq<char>, i: int)
    requires
        0 <= i <= s.len(),
    ensures
        match key_index(s, id, i) {
            Some(k) => i <= k < s.len() && s[k].0 == id && forall|j: int|
                i <= j < k ==> s[j].0 != id,
            None => forall|j: int| i <= j < s.len() ==> s[j].0 != id,
        },
    decreases s.len() - i,
{
    if i < s.len() {
        lemma_key_index(s, id, i + 1);
    }
}

proof fn lemma_key_index_at(s: Seq<(Seq<char>, u32)>, id: Seq<char>, k: int)
    requires
        0 <= k < s.len(),
        s[k].0 == id,
        forall|j: int| 0 <= j < k ==> s[j].0 != id,
    ensures
        key_index(s, id, 0) == Some(k),
{
    lemma_key_index(s, id, 0);
    match key_index(s, id, 0) {
        Some(m) => {
            if m > k {
                assert(s[k].0 == id);
            }
        },
        None => {
            assert(s[k].0 == id);
        },
    }
}

proof fn lemma_first_not_below(s: Seq<(Seq<char>, u32)>, id: Seq<char>, i: int, k: int)
    requires
        0 <= i <= k <= s.len(),
        forall|j: int| i <= j < k ==> text_le(#[trigger] s[j].0, id) && s[j].0 != id,
        k < s.len() ==> !(text_le(s[k].0, id) && s[k].0 != id),
    ensures
        first_not_below(s, id, i) == k,
    decreases k - i,
{
    if i < k {
        lemma_first_not_below(s, id, i + 1, k);
    }
}

proof fn lemma_total_append(a: Seq<(Seq<char>, u32)>, b: Seq<(Seq<char>, u32)>)
    ensures
        total_of(a + b) == total_of(a) + total_of(b),
    decreases b.len(),
{
    if b.len() > 0 {
        lemma_total_append(a, b.drop_last());
        assert((a + b).drop_last() =~= a + b.drop_last());
    } else {
        assert(a + b =~= a);
    }
}

proof fn lemma_total_single(x: (Seq<char>, u32))
    ensures
        total_of(seq![x]) == x.1,
{
    assert(seq![x].drop_last() =~= Seq::<(Seq<char>, u32)>::empty());
    assert(seq![x].last() == x);
    assert(total_of(Seq::<(Seq<char>, u32)>::empty()) == 0);
}

proof fn lemma_total_update(s: Seq<(Seq<char>, u32)>, k: int, x: (Seq<char>, u32))
    requires
        0 <= k < s.len(),
    ensures
        total_of(s.update(k, x)) + s[k].1 == total_of(s) + x.1,
{
    let a = s.take(k);
    let b = s.skip(k + 1);
    assert(s =~= a + seq![s[k]] + b);
    assert(s.update(k, x) =~= a + seq![x] + b);
    lemma_total_append(a + seq![s[k]], b);
    lemma_total_append(a, seq![s[k]]);
    lemma_total_append(a + seq![x], b);
    lemma_total_append(a, seq![x]);
    lemma_total_single(s[k]);
    lemma_total_single(x);
}

proof fn lemma_total_insert(s: Seq<(Seq<char>, u32)>, k: int, x: (Seq<char>, u32))
    requires
        0 <= k <= s.len(),
    ensures
        total_of(s.insert(k, x)) == total_of(s) + x.1,
{
    let a = s.take(k);
    let b = s.skip(k);
    assert(s =~= a + b);
    assert(s.insert(k, x) =~= a + seq![x] + b);
    lemma_total_append(a, b);
    lemma_total_append(a + seq![x], b);
    lemma_total_append(a, seq![x]);
    lemma_total_single(x);
}

proof fn lemma_total_remove(s: Seq<(Seq<char>, u32)>, k: int)
    requires
        0 <= k < s.len(),
    ensures
        total_of(s.remove(k)) + s[k].1 == total_of(s),
{
    let a = s.take(k);
    let b = s.skip(k + 1);
    assert(s =~= a + seq![s[k]] + b);
    assert(s.remove(k) =~= a + b);
    lemma_total_append(a + seq![s[k]], b);
    lemma_total_append(a, seq![s[k]]);
    lemma_total_append(a, b);
    lemma_total_single(s[k]);
}

proof fn lemma_first_not_below_range(s: Seq<(Seq<char>, u32)>, id: Seq<char>, i: int)
    requires
        0 <= i <= s.len(),
    ensures
        i <= first_not_below(s, id, i) <= s.len(),
    decreases s.len() - i,
{
    if i < s.len() {
        lemma_first_not_below_range(s, id, i + 1);
    }
}

proof fn lemma_same_keys(s: Seq<(Seq<char>, u32)>, t: Seq<(Seq<char>, u32)>, x: Seq<char>, i: int)
    requires
        s.len() == t.len(),
        forall|j: int| 0 <= j < s.len() ==> (#[trigger] s[j]).0 == t[j].0,
    ensures
        key_index(s, x, i) == key_index(t, x, i),
    decreases s.len() - i,
{
    if 0 <= i < s.len() {
        assert(s[i].0 == t[i].0);
        lemma_same_keys(s, t, x, i + 1);
    }
}

/// One more copy of `id` raises its count by one and leaves every other
/// count as it was.
pub proof fn law_add_counts(s: Seq<(Seq<char>, u32)>, id: Seq<char>, x: Seq<char>)
    requires
        total_of(s) < u32::MAX,
    ensures
        count_of(add_spec(s, id), x) == count_of(s, x) + if x == id {
            1int
        } else {
            0int
        },
{
    lemma_key_index(s, id, 0);
    lemma_key_index(s, x, 0);
    match key_index(s, id, 0) {
        Some(k) => {
            let t = s.update(k, (id, (s[k].1 + 1) as u32));
            lemma_total_update(s, k, (id, 0u32));
            lemma_same_keys(s, t, x, 0);
        },
        None => {
            let pos = first_not_below(s, id, 0);
            lemma_first_not_below_range(s, id, 0);
            let t = s.insert(pos, (id, 1u32));
            if x == id {
                lemma_key_index_at(t, id, pos);
            } else {
                lemma_key_index(t, x, 0);
                match key_index(s, x, 0) {
                    Some(k) => {
                        if k < pos {
                            lemma_key_index_at(t, x, k);
                        } else {
                            assert forall|j: int| 0 <= j < k + 1 implies t[j].0 != x by {
                                if j > pos {
                                    assert(t[j] == s[j - 1]);
                                }
                            }
                            lemma_key_index_at(t, x, k + 1);
                        }
                    },
                    None => {
                        match key_index(t, x, 0) {
                            Some(m) => {
                                if m < pos {
                                    assert(t[m] == s[m]);
                                } else if m > pos {
                                    assert(t[m] == s[m - 1]);
                                }
                            },
                            None => {},
                        }
                    },
                }
            }
        },
    }
}

/// Adding one copy of a card and then removing one copy of it gives back the
/// build it started from.
pub proof fn law_add_then_remove(s: Seq<(Seq<char>, u32)>, id: Seq<char>)
    requires
        build_ok(s),
        total_of(s) < u32::MAX,
    ensures
        remove_spec(add_spec(s, id), id) == s,
{
    lemma_key_index(s, id, 0);
    match key_index(s, id, 0) {
        Some(k) => {
            let t = s.update(k, (id, (s[k].1 + 1) as u32));
            lemma_total_update(s, k, (id, 0u32));
            lemma_same_keys(s, t, id, 0);
            assert(s[k].1 > 0);
            assert(t[k].1 > 1);
            assert(t.update(k, (id, (t[k].1 - 1) as u32)) =~= s);
        },
        None => {
            let pos = first_not_below(s, id, 0);
            lemma_first_not_below_range(s, id, 0);
            let t = s.insert(pos, (id, 1u32));
            lemma_key_index_at(t, id, pos);
            assert(t.remove(pos) =~= s);
        },
    }
}

proof fn lemma_filtered_append(
    a: Seq<(Seq<char>, u32)>,
    b: Seq<(Seq<char>, u32)>,
    keep: spec_fn(Seq<char>) -> bool,
)
    ensures
        filtered_total(a + b, keep) == filtered_total(a, keep) + filtered_total(b, keep),
    decreases b.len(),
{
    if b.len() > 0 {
        lemma_filtered_append(a, b.drop_last(), keep);
        assert((a + b).drop_last() =~= a + b.drop_last());
    } else {
        assert(a + b =~= a);
    }
}

proof fn lemma_filtered_single(x: (Seq<char>, u32), keep: spec_fn(Seq<char>) -> bool)
    ensures
        filtered_total(seq![x], keep) == if keep(x.0) {
            x.1 as int
        } else {
            0int
        },
{
    assert(seq![x].drop_last() =~= Seq::<(Seq<char>, u32)>::empty());
    assert(seq![x].last() == x);
    assert(filtered_total(Seq::<(Seq<char>, u32)>::empty(), keep) == 0);
}

/// One more copy of `id` raises the total of any selection that keeps `id` by
/// one and leaves the others as they were.
pub proof fn law_add_filtered(
    s: Seq<(Seq<char>, u32)>,
    id: Seq<char>,
    keep: spec_fn(Seq<char>) -> bool,
)
    requires
        total_of(s) < u32::MAX,
    ensures
        filtered_total(add_spec(s, id), keep) == filtered_total(s, keep) + if keep(id) {
            1int
        } else {
            0int
        },
{
    lemma_key_index(s, id, 0);
    match key_index(s, id, 0) {
        Some(k) => {
            let x = (id, (s[k].1 + 1) as u32);
            lemma_total_update(s, k, (id, 0u32));
            let a = s.take(k);
            let b = s.skip(k + 1);
            assert(s =~= a + seq![s[k]] + b);
            assert(s.update(k, x) =~= a + seq![x] + b);
            lemma_filtered_append(a + seq![s[k]], b, keep);
            lemma_filtered_append(a, seq![s[k]], keep);
            lemma_filtered_append(a + seq![x], b, keep);
            lemma_filtered_append(a, seq![x], keep);
            lemma_filtered_single(s[k], keep);
            lemma_filtered_single(x, keep);
        },
        None => {
            let pos = first_not_below(s, id, 0);
            lemma_first_not_below_range(s, id, 0);
            let x = (id, 1u32);
            let a = s.take(pos);
            let b = s.skip(pos);
            assert(s =~= a + b);
            assert(s.insert(pos, x) =~= a + seq![x] + b);
            lemma_filtered_append(a, b, keep);
            lemma_filtered_append(a + seq![x], b, keep);
            lemma_filtered_append(a, seq![x], keep);
            lemma_filtered_single(x, keep);
        },
    }
}

/// The main deck of a build has exactly as many cards as the build's total.
pub proof fn law_cards_len(s: Seq<(Seq<char>, u32)>)
    ensures
        cards_of(s).len() == total_of(s),
    decreases s.len(),
{
    if s.len() > 0 {
        law_cards_len(s.drop_last());
    }
}

/// Trading one copy of `remove` for one copy of `add` is legal: the two cards
/// differ, the added card's name stays within its copy limit, and the deck is
/// full.
pub open spec fn swap_ok(
    s: Seq<(Seq<char>, u32)>,
    ids: Seq<Seq<char>>,
    names: Seq<Seq<char>>,
    remove: Seq<char>,
    add: Seq<char>,
) -> bool {
    &&& remove != add
    &&& name_total_of(remove_spec(s, remove), ids, names, pool_name(ids, names, add)->0) + 1
        <= MAX_PER_NAME
    &&& total_of(s) == DECK_SIZE
}

/// A card's power, with no power counting as 0.
pub open spec fn power_or_zero(p: Option<i32>) -> i32 {
    match p {
        Some(x) => x,
        None => 0,
    }
}

/// A candidate for the palette: an attack with positive power that is
/// Lightning or Runeblade.
pub open spec fn is_candidate(c: CardView) -> bool {
    &&& card_is_attack(c)
    &&& power_or_zero(c.power) > 0
    &&& (c.talents.contains(Talent::Lightning) || c.classes.contains(Class::Runeblade))
}

/// The first index at or after `i` of an entry named `name`.
pub open spec fn name_slot(r: Seq<(Seq<char>, i32)>, name: Seq<char>, i: int) -> Option<int>
    decreases r.len() - i,
{
    if i < 0 || i >= r.len() {
        None
    } else if r[i].0 == name {
        Some(i)
    } else {
        name_slot(r, name, i + 1)
    }
}

/// The best power of each candidate name among the first `n` cards, names in
/// order of first appearance.
pub open spec fn best_powers(db: Seq<CardView>, n: int) -> Seq<(Seq<char>, i32)>
    decreases n,
{
    if n <= 0 {
        Seq::empty()
    } else {
        let r = best_powers(db, n - 1);
        let c = db[n - 1];
        if is_candidate(c) {
            let p = power_or_zero(c.power);
            match name_slot(r, c.name, 0) {
                Some(k) => r.update(
                    k,
                    (
                        c.name,
                        if r[k].1 >= p {
                            r[k].1
                        } else {
                            p
                        },
                    ),
                ),
                None => r.push((c.name, p)),
            }
        } else {
            r
        }
    }
}

/// Names of `r` are distinct.
pub open spec fn names_distinct(r: Seq<(Seq<char>, i32)>) -> bool {
    forall|i: int, j: int| 0 <= i < j < r.len() ==> (#[trigger] r[i]).0 != (#[trigger] r[j]).0
}

/// Each entry of `r` is a name and power of a candidate among the first `n` cards.
pub open spec fn powers_attained(db: Seq<CardView>, cand: spec_fn(CardView) -> bool, r: Seq<(Seq<char>, i32)>, n: int) -> bool {
    forall|i: int| 0 <= i < r.len() ==> #[trigger] attained(db, cand, r[i], n)
}

/// Some card among the first `n` attains entry `e`.
pub open spec fn attained(db: Seq<CardView>, cand: spec_fn(CardView) -> bool, e: (Seq<char>, i32), n: int) -> bool {
    exists|k: int| 0 <= k < n && #[trigger] attains(db, cand, e, k)
}

/// Card `k` is a candidate with the name and power of entry `e`.
pub open spec fn attains(db: Seq<CardView>, cand: spec_fn(CardView) -> bool, e: (Seq<char>, i32), k: int) -> bool {
    cand(db[k]) && db[k].name == e.0 && power_or_zero(db[k].power) == e.1
}

/// No candidate among the first `n` cards has more power than its name's entry.
pub open spec fn powers_bound(db: Seq<CardView>, cand: spec_fn(CardView) -> bool, r: Seq<(Seq<char>, i32)>, n: int) -> bool {
    forall|i: int, k: int|
        0 <= i < r.len() && 0 <= k < n && cand(#[trigger] db[k]) && db[k].name == (
        #[trigger] r[i]).0 ==> power_or_zero(db[k].power) <= r[i].1
}

/// Every candidate name among the first `n` cards has an entry.
pub open spec fn powers_cover(db: Seq<CardView>, cand: spec_fn(CardView) -> bool, r: Seq<(Seq<char>, i32)>, n: int) -> bool {
    forall|k: int|
        0 <= k < n && cand(#[trigger] db[k]) ==> exists|i: int|
            0 <= i < r.len() && (#[trigger] r[i]).0 == db[k].name
}

pub open spec fn powers_ok(db: Seq<CardView>, cand: spec_fn(CardView) -> bool, r: Seq<(Seq<char>, i32)>, n: int) -> bool {
    &&& names_distinct(r)
    &&& powers_attained(db, cand, r, n)
    &&& powers_bound(db, cand, r, n)
    &&& powers_cover(db, cand, r, n)
}

proof fn lemma_powers_skip(db: Seq<CardView>, cand: spec_fn(CardView) -> bool, r: Seq<(Seq<char>, i32)>, n: int)
    requires
        0 < n <= db.len(),
        powers_ok(db, cand, r, n - 1),
        !cand(db[n - 1]),
    ensures
        powers_ok(db, cand, r, n),
{
    assert forall|i: int, k: int|
        0 <= i < r.len() && 0 <= k < n && cand(#[trigger] db[k]) && db[k].name == (
        #[trigger] r[i]).0 implies power_or_zero(db[k].power) <= r[i].1 by {
        assert(k < n - 1);
    }
    assert forall|i: int| 0 <= i < r.len() implies #[trigger] attained(db, cand, r[i], n) by {
        assert(attained(db, cand, r[i], n - 1));
        let k = choose|k: int| 0 <= k < n - 1 && #[trigger] attains(db, cand, r[i], k);
    }
    assert forall|k: int| 0 <= k < n && cand(#[trigger] db[k]) implies exists|i: int|
        0 <= i < r.len() && (#[trigger] r[i]).0 == db[k].name by {
        if k == n - 1 {
            assert(!cand(db[k]));
        }
        assert(k < n - 1);
        assert(cand(db[k]));
        let i = choose|i: int| 0 <= i < r.len() && (#[trigger] r[i]).0 == db[k].name;
    }
}

proof fn lemma_powers_new(db: Seq<CardView>, cand: spec_fn(CardView) -> bool, r: Seq<(Seq<char>, i32)>, n: int)
    requires
        0 < n <= db.len(),
        powers_ok(db, cand, r, n - 1),
        cand(db[n - 1]),
        forall|i: int| 0 <= i < r.len() ==> (#[trigger] r[i]).0 != db[n - 1].name,
    ensures
        powers_ok(db, cand, r.push((db[n - 1].name, power_or_zero(db[n - 1].power))), n),
{
    let c = db[n - 1];
    let t = r.push((c.name, power_or_zero(c.power)));
    let last = r.len() as int;
    assert forall|i: int| 0 <= i < t.len() implies #[trigger] attained(db, cand, t[i], n) by {
        if i == last {
            assert(attains(db, cand, t[i], n - 1));
        } else {
            assert(t[i] == r[i]);
            assert(attained(db, cand, r[i], n - 1));
            let k = choose|k: int| 0 <= k < n - 1 && #[trigger] attains(db, cand, r[i], k);
            assert(attains(db, cand, t[i], k));
        }
    }
    assert forall|i: int, k: int|
        0 <= i < t.len() && 0 <= k < n && cand(#[trigger] db[k]) && db[k].name == (
        #[trigger] t[i]).0 implies power_or_zero(db[k].power) <= t[i].1 by {
        if i == last {
            if k < n - 1 {
                let j = choose|j: int| 0 <= j < r.len() && (#[trigger] r[j]).0 == db[k].name;
                assert(r[j].0 != c.name);
            }
        } else {
            assert(t[i] == r[i]);
            if k == n - 1 {
                assert(r[i].0 != c.name);
            }
        }
    }
    assert forall|k: int| 0 <= k < n && cand(#[trigger] db[k]) implies exists|i: int|
        0 <= i < t.len() && (#[trigger] t[i]).0 == db[k].name by {
        if k < n - 1 {
            let i = choose|i: int| 0 <= i < r.len() && (#[trigger] r[i]).0 == db[k].name;
            assert(t[i] == r[i]);
        } else {
            assert(t[last].0 == c.name);
        }
    }
    assert forall|i: int, j: int| 0 <= i < j < t.len() implies (#[trigger] t[i]).0 != (
    #[trigger] t[j]).0 by {
        if j == last {
            assert(t[i] == r[i]);
        } else {
            assert(t[i] == r[i] && t[j] == r[j]);
        }
    }
}

proof fn lemma_powers_raise(
    db: Seq<CardView>,
    cand: spec_fn(CardView) -> bool,
    r: Seq<(Seq<char>, i32)>,
    n: int,
    k: int,
)
    requires
        0 < n <= db.len(),
        powers_ok(db, cand, r, n - 1),
        cand(db[n - 1]),
        0 <= k < r.len(),
        r[k].0 == db[n - 1].name,
    ensures
        powers_ok(
            db,
            cand,
            r.update(
                k,
                (
                    db[n - 1].name,
                    if r[k].1 >= power_or_zero(db[n - 1].power) {
                        r[k].1
                    } else {
                        power_or_zero(db[n - 1].power)
                    },
                ),
            ),
            n,
        ),
{
    let c = db[n - 1];
    let p = power_or_zero(c.power);
    let m = if r[k].1 >= p {
        r[k].1
    } else {
        p
    };
    let t = r.update(k, (c.name, m));
    assert forall|i: int| 0 <= i < t.len() && i != k implies (#[trigger] t[i]) == r[i] && r[i].0
        != c.name by {
        assert(r[i].0 != r[k].0);
    }
    assert forall|i: int| 0 <= i < t.len() implies #[trigger] attained(db, cand, t[i], n) by {
        if i == k && r[k].1 < p {
            assert(attains(db, cand, t[i], n - 1));
        } else {
            assert(t[i].0 == r[i].0 && t[i].1 == r[i].1);
            assert(attained(db, cand, r[i], n - 1));
            let k2 = choose|k2: int| 0 <= k2 < n - 1 && #[trigger] attains(db, cand, r[i], k2);
            assert(attains(db, cand, t[i], k2));
        }
    }
    assert forall|i: int, k2: int|
        0 <= i < t.len() && 0 <= k2 < n && cand(#[trigger] db[k2]) && db[k2].name == (
        #[trigger] t[i]).0 implies power_or_zero(db[k2].power) <= t[i].1 by {
        if i == k {
            if k2 < n - 1 {
                assert(power_or_zero(db[k2].power) <= r[k].1);
            }
        } else {
            assert(t[i] == r[i]);
            if k2 < n - 1 {
                assert(power_or_zero(db[k2].power) <= r[i].1);
            }
        }
    }
    assert forall|k2: int| 0 <= k2 < n && cand(#[trigger] db[k2]) implies exists|i: int|
        0 <= i < t.len() && (#[trigger] t[i]).0 == db[k2].name by {
        if k2 < n - 1 {
            let i = choose|i: int| 0 <= i < r.len() && (#[trigger] r[i]).0 == db[k2].name;
            assert(t[i].0 == r[i].0);
        } else {
            assert(t[k].0 == c.name);
        }
    }
    assert forall|i: int, j: int| 0 <= i < j < t.len() implies (#[trigger] t[i]).0 != (
    #[trigger] t[j]).0 by {
        assert(t[i].0 == r[i].0 && t[j].0 == r[j].0);
    }
}

proof fn lemma_best_powers(db: Seq<CardView>, n: int)
    requires
        0 <= n <= db.len(),
    ensures
        powers_ok(db, |c: CardView| is_candidate(c), best_powers(db, n), n),
    decreases n,
{
    if n > 0 {
        lemma_best_powers(db, n - 1);
        let r = best_powers(db, n - 1);
        let c = db[n - 1];
        if is_candidate(c) {
            lemma_name_slot(r, c.name, 0);
            match name_slot(r, c.name, 0) {
                Some(k) => {
                    lemma_powers_raise(db, |c: CardView| is_candidate(c), r, n, k);
                },
                None => {
                    lemma_powers_new(db, |c: CardView| is_candidate(c), r, n);
                },
            }
        } else {
            lemma_powers_skip(db, |c: CardView| is_candidate(c), r, n);
        }
    }
}

/// The palette ranks each name by its strongest candidate variant: a name with a
/// candidate variant stronger than every candidate variant of another name is
/// chosen whenever that other name is.
pub proof fn law_stronger_name_chosen_first(
    db: Seq<CardView>,
    n_names: nat,
    a: Seq<char>,
    b: Seq<char>,
    ka: int,
)
    requires
        0 <= ka < db.len(),
        is_candidate(db[ka]),
        db[ka].name == a,
        forall|kb: int|
            0 <= kb < db.len() && is_candidate(#[trigger] db[kb]) && db[kb].name == b
                ==> power_or_zero(db[kb].power) < power_or_zero(db[ka].power),
        chosen_names(db, n_names).contains(b),
    ensures
        chosen_names(db, n_names).contains(a),
{
    let bp = best_powers(db, db.len() as int);
    let cand = |c: CardView| is_candidate(c);
    lemma_best_powers(db, db.len() as int);
    lemma_rank_order_total();
    bp.lemma_sort_by_ensures(rank_order());
    let sr = bp.sort_by(rank_order());
    let m = if n_names < sr.len() {
        n_names as int
    } else {
        sr.len() as int
    };
    let ch = chosen_names(db, n_names);
    assert(ch == sr.take(m).map_values(|x: (Seq<char>, i32)| x.0));
    let t = choose|t: int| 0 <= t < ch.len() && ch[t] == b;
    assert(sr[t].0 == b);
    // the entry of `b` holds the power of one of its variants, below `a`'s
    assert(sr[t].1 < power_or_zero(db[ka].power)) by {
        broadcast use vstd::seq_lib::group_to_multiset_ensures;

        assert(bp.to_multiset().count(sr[t]) > 0);
        assert(bp.contains(sr[t]));
        let i = choose|i: int| 0 <= i < bp.len() && bp[i] == sr[t];
        assert(powers_attained(db, cand, bp, db.len() as int));
        assert(attained(db, cand, bp[i], db.len() as int));
        let kb = choose|kb: int| 0 <= kb < db.len() && #[trigger] attains(db, cand, bp[i], kb);
        assert(is_candidate(db[kb]));
    }
    // the entry of `a` holds at least the power of `db[ka]`
    let ia = choose|ia: int| 0 <= ia < bp.len() && (#[trigger] bp[ia]).0 == db[ka].name;
    assert(power_or_zero(db[ka].power) <= bp[ia].1) by {
        assert(powers_bound(db, cand, bp, db.len() as int));
        assert(cand(db[ka]));
    }
    let u = choose|u: int| 0 <= u < sr.len() && sr[u] == bp[ia];
    assert(0 <= u < sr.len() && sr[u] == bp[ia]) by {
        broadcast use vstd::seq_lib::group_to_multiset_ensures;

        assert(sr.to_multiset().count(bp[ia]) > 0);
        assert(sr.contains(bp[ia]));
    }
    if u >= m {
        assert(rank_order()(sr[t], sr[u]));
        assert(false);
    }
    assert(ch[u] == a);
}

/// Stronger first; equal power by name in text order.
pub open spec fn rank_le(a: (Seq<char>, i32), b: (Seq<char>, i32)) -> bool {
    a.1 > b.1 || (a.1 == b.1 && text_le(a.0, b.0))
}

pub open spec fn rank_order() -> spec_fn((Seq<char>, i32), (Seq<char>, i32)) -> bool {
    |a: (Seq<char>, i32), b: (Seq<char>, i32)| rank_le(a, b)
}

/// The `n_names` strongest candidate names.
pub open spec fn chosen_names(db: Seq<CardView>, n_names: nat) -> Seq<Seq<char>> {
    let r = best_powers(db, db.len() as int).sort_by(rank_order());
    let m = if n_names < r.len() {
        n_names as int
    } else {
        r.len() as int
    };
    r.take(m).map_values(|x: (Seq<char>, i32)| x.0)
}

/// The identifiers, in database order, of the attacks among the first `n`
/// cards whose name is in `chosen`.
pub open spec fn named_attack_ids(db: Seq<CardView>, chosen: Seq<Seq<char>>, n: int) -> Seq<
    Seq<char>,
>
    decreases n,
{
    if n <= 0 {
        Seq::empty()
    } else {
        let r = named_attack_ids(db, chosen, n - 1);
        if card_is_attack(db[n - 1]) && chosen.contains(db[n - 1].name) {
            r.push(db[n - 1].id)
        } else {
            r
        }
    }
}

/// The palette's identifiers: every pitch variant of the chosen names, in text
/// order.
pub open spec fn pool_ids(db: Seq<CardView>, n_names: nat) -> Seq<Seq<char>> {
    named_attack_ids(db, chosen_names(db, n_names), db.len() as int).sort_by(text_order())
}

proof fn lemma_named_contains(db: Seq<CardView>, chosen: Seq<Seq<char>>, n: int, x: Seq<char>)
    requires
        0 <= n <= db.len(),
    ensures
        named_attack_ids(db, chosen, n).contains(x) <==> exists|k: int|
            0 <= k < n && (#[trigger] db[k]).id == x && card_is_attack(db[k]) && chosen.contains(
                db[k].name,
            ),
    decreases n,
{
    if n > 0 {
        lemma_named_contains(db, chosen, n - 1, x);
        let r = named_attack_ids(db, chosen, n - 1);
        let t = named_attack_ids(db, chosen, n);
        if card_is_attack(db[n - 1]) && chosen.contains(db[n - 1].name) {
            assert(t == r.push(db[n - 1].id));
            if t.contains(x) && x != db[n - 1].id {
                let i = choose|i: int| 0 <= i < t.len() && t[i] == x;
                assert(r[i] == x);
            }
            if r.contains(x) {
                let i = choose|i: int| 0 <= i < r.len() && r[i] == x;
                assert(t[i] == x);
            }
            if x == db[n - 1].id {
                assert(t[r.len() as int] == x);
            }
        }
    }
}

/// The palette holds exactly the identifiers of the attacks whose name is one of
/// the chosen names, in text order.
pub proof fn law_pool_members(db: Seq<CardView>, n_names: nat, x: Seq<char>)
    ensures
        pool_ids(db, n_names).contains(x) <==> exists|k: int|
            0 <= k < db.len() && (#[trigger] db[k]).id == x && card_is_attack(db[k])
                && chosen_names(db, n_names).contains(db[k].name),
        sorted_by(pool_ids(db, n_names), text_order()),
{
    broadcast use vstd::seq_lib::group_to_multiset_ensures;

    let named = named_attack_ids(db, chosen_names(db, n_names), db.len() as int);
    lemma_named_contains(db, chosen_names(db, n_names), db.len() as int, x);
    lemma_text_order_total();
    named.lemma_sort_by_ensures(text_order());
    if named.contains(x) {
        assert(named.to_multiset().count(x) > 0);
    }
    if pool_ids(db, n_names).contains(x) {
        assert(pool_ids(db, n_names).to_multiset().count(x) > 0);
    }
}

/// Every chosen name is the name of a candidate card.
pub proof fn law_chosen_are_candidates(db: Seq<CardView>, n_names: nat, a: Seq<char>)
    requires
        chosen_names(db, n_names).contains(a),
    ensures
        exists|k: int| 0 <= k < db.len() && is_candidate(#[trigger] db[k]) && db[k].name == a,
{
    broadcast use vstd::seq_lib::group_to_multiset_ensures;

    let bp = best_powers(db, db.len() as int);
    let cand = |c: CardView| is_candidate(c);
    lemma_best_powers(db, db.len() as int);
    lemma_rank_order_total();
    bp.lemma_sort_by_ensures(rank_order());
    let sr = bp.sort_by(rank_order());
    let m = if n_names < sr.len() {
        n_names as int
    } else {
        sr.len() as int
    };
    let ch = chosen_names(db, n_names);
    assert(ch == sr.take(m).map_values(|x: (Seq<char>, i32)| x.0));
    let t = choose|t: int| 0 <= t < ch.len() && ch[t] == a;
    assert(sr[t].0 == a);
    assert(bp.to_multiset().count(sr[t]) > 0);
    assert(bp.contains(sr[t]));
    let i = choose|i: int| 0 <= i < bp.len() && bp[i] == sr[t];
    assert(attained(db, cand, bp[i], db.len() as int));
    let k = choose|k: int| 0 <= k < db.len() && #[trigger] attains(db, cand, bp[i], k);
    assert(is_candidate(db[k]));
}

pub open spec fn rank_views(v: Seq<(String, i32)>) -> Seq<(Seq<char>, i32)> {
    v.map_values(|e: (String, i32)| (e.0@, e.1))
}

proof fn lemma_rank_order_total()
    ensures
        total_ordering(rank_order()),
{
    lemma_text_order_total();
    assert forall|a: (Seq<char>, i32)| #[trigger] rank_order()(a, a) by {
        assert(text_order()(a.0, a.0));
    }
    assert forall|a: (Seq<char>, i32), b: (Seq<char>, i32)|
        #[trigger] rank_order()(a, b) && #[trigger] rank_order()(b, a) implies a == b by {
        assert(text_order()(a.0, b.0) && text_order()(b.0, a.0) ==> a.0 == b.0);
    }
    assert forall|a: (Seq<char>, i32), b: (Seq<char>, i32), c: (Seq<char>, i32)|
        #[trigger] rank_order()(a, b) && #[trigger] rank_order()(b, c) implies rank_order()(
        a,
        c,
    ) by {
        assert(text_order()(a.0, b.0) && text_order()(b.0, c.0) ==> text_order()(a.0, c.0));
    }
    assert forall|a: (Seq<char>, i32), b: (Seq<char>, i32)|
        #[trigger] rank_order()(a, b) || #[trigger] rank_order()(b, a) by {
        assert(text_order()(a.0, b.0) || text_order()(b.0, a.0));
    }
}

fn rank_before(a: &(String, i32), b: &(String, i32)) -> (r: bool)
    ensures
        r == rank_le((a.0@, a.1), (b.0@, b.1)),
{
    if a.1 != b.1 {
        a.1 > b.1
    } else {
        chars_le(&chars_of(a.0.as_str()), &chars_of(b.0.as_str()))
    }
}

/// Sorts (name, power) pairs strongest first, equal powers by name.
fn sort_ranked(v: Vec<(String, i32)>) -> (r: Vec<(String, i32)>)
    ensures
        rank_views(r@) == rank_views(v@).sort_by(rank_order()),
{
    let mut out: Vec<(String, i32)> = Vec::new();
    let mut vals = v;
    let ghost orig = rank_views(vals@);
    proof {
        lemma_rank_order_total();
        broadcast use vstd::seq_lib::group_to_multiset_ensures;
        broadcast use vstd::multiset::group_multiset_axioms;
        assert(rank_views(out@) =~= Seq::<(Seq<char>, i32)>::empty());
        assert(rank_views(vals@).to_multiset().add(rank_views(out@).to_multiset())
            =~= orig.to_multiset());
    }
    while vals.len() > 0
        invariant
            total_ordering(rank_order()),
            sorted_by(rank_views(out@), rank_order()),
            rank_views(vals@).to_multiset().add(rank_views(out@).to_multiset())
                == orig.to_multiset(),
        decreases vals@.len(),
    {
        let ghost pre_vals = rank_views(vals@);
        let ghost pre_out = rank_views(out@);
        let x = vals.pop().unwrap();
        let ghost xv = (x.0@, x.1);
        assert(pre_vals =~= rank_views(vals@).push(xv));
        let mut pos: usize = 0;
        while pos < out.len() && !rank_before(&x, &out[pos])
            invariant
                pre_out == rank_views(out@),
                xv == (x.0@, x.1),
                pos <= out@.len(),
                forall|i: int| 0 <= i < pos ==> !rank_le(xv, #[trigger] pre_out[i]),
            decreases out@.len() - pos,
        {
            pos = pos + 1;
        }
        out.insert(pos, x);
        proof {
            let nv = rank_views(out@);
            assert(nv =~= pre_out.insert(pos as int, xv));
            vstd::seq_lib::to_multiset_insert(pre_out, pos as int, xv);
            assert forall|i: int, j: int| 0 <= i < j < nv.len() implies #[trigger] rank_order()(
                nv[i],
                nv[j],
            ) by {
                if j < pos {
                    assert(rank_order()(pre_out[i], pre_out[j]));
                } else if i > pos {
                    assert(rank_order()(pre_out[i - 1], pre_out[j - 1]));
                } else if i == pos {
                    assert(rank_order()(xv, pre_out[pos as int]));
                    if j - 1 > pos {
                        assert(rank_order()(pre_out[pos as int], pre_out[j - 1]));
                    }
                } else if j == pos {
                    assert(!rank_le(xv, pre_out[i]));
                    assert(rank_order()(pre_out[i], xv) || rank_order()(xv, pre_out[i]));
                } else {
                    assert(rank_order()(pre_out[i], pre_out[j - 1]));
                }
            }
            assert(rank_views(vals@).to_multiset().insert(xv) =~= pre_vals.to_multiset()) by {
                broadcast use vstd::seq_lib::group_to_multiset_ensures;
            }
            broadcast use vstd::multiset::group_multiset_axioms;
            assert(rank_views(vals@).to_multiset().add(nv.to_multiset()) =~= orig.to_multiset());
        }
    }
    proof {
        assert(rank_views(vals@) =~= Seq::<(Seq<char>, i32)>::empty());
        broadcast use vstd::seq_lib::group_to_multiset_ensures;
        broadcast use vstd::multiset::group_multiset_axioms;
        assert(rank_views(vals@).to_multiset() =~= Multiset::<(Seq<char>, i32)>::empty());
        assert(rank_views(out@).to_multiset() =~= orig.to_multiset());
        orig.lemma_sort_by_ensures(rank_order());
        vstd::seq_lib::lemma_sorted_unique(rank_views(out@), orig.sort_by(rank_order()), rank_order());
    }
    out
}

/// A card's power in the database; no such card, or no power, counts as 0.
pub open spec fn power_in(db: Seq<CardView>, id: Seq<char>) -> i32 {
    match lookup(db, id) {
        Some(c) => power_or_zero(c.power),
        None => 0,
    }
}

/// The variant of `name` that the starting build uses, over the first `n` pool
/// positions, with its power: the first identifier of highest power, where the
/// name's first identifier starts at power -1.
pub open spec fn best_variant(
    db: Seq<CardView>,
    ids: Seq<Seq<char>>,
    names: Seq<Seq<char>>,
    name: Seq<char>,
    n: int,
) -> Option<(Seq<char>, i32)>
    decreases n,
{
    if n <= 0 {
        None
    } else {
        let prev = best_variant(db, ids, names, name, n - 1);
        if names[n - 1] != name {
            prev
        } else {
            let p = power_in(db, ids[n - 1]);
            match prev {
                None => Some(
                    (
                        ids[n - 1],
                        if p > -1 {
                            p
                        } else {
                            -1i32
                        },
                    ),
                ),
                Some(b) => if p > b.1 {
                    Some((ids[n - 1], p))
                } else {
                    prev
                },
            }
        }
    }
}

/// The distinct names of the first `n` positions, in order of first appearance.
pub open spec fn first_names(names: Seq<Seq<char>>, n: int) -> Seq<Seq<char>>
    decreases n,
{
    if n <= 0 {
        Seq::empty()
    } else {
        let r = first_names(names, n - 1);
        if r.contains(names[n - 1]) {
            r
        } else {
            r.push(names[n - 1])
        }
    }
}

/// The identifiers of the starting build, one per name, names in text order.
pub open spec fn start_variants(
    db: Seq<CardView>,
    ids: Seq<Seq<char>>,
    names: Seq<Seq<char>>,
) -> Seq<Seq<char>> {
    first_names(names, names.len() as int).sort_by(text_order()).map_values(
        |nm: Seq<char>| variant_id(db, ids, names, nm),
    )
}

/// The identifier of the starting build's variant of `name`.
pub open spec fn variant_id(
    db: Seq<CardView>,
    ids: Seq<Seq<char>>,
    names: Seq<Seq<char>>,
    name: Seq<char>,
) -> Seq<char> {
    match best_variant(db, ids, names, name, ids.len() as int) {
        Some(b) => b.0,
        None => Seq::empty(),
    }
}

/// Cards in the starting build of `v` names: three of each, up to a full deck.
pub open spec fn start_total(v: nat) -> nat {
    if 3 * v < DECK_SIZE {
        3 * v
    } else {
        DECK_SIZE as nat
    }
}

/// Copies of the `j`-th name's variant in the starting build: the names are
/// dealt one copy each in turn until the deck is full.
pub open spec fn start_count(v: nat, j: int) -> nat {
    let t = start_total(v);
    (t / v + if j < t % v {
        1nat
    } else {
        0nat
    }) as nat
}

proof fn lemma_best_variant(
    db: Seq<CardView>,
    ids: Seq<Seq<char>>,
    names: Seq<Seq<char>>,
    name: Seq<char>,
    n: int,
)
    requires
        0 <= n <= ids.len(),
        ids.len() == names.len(),
    ensures
        match best_variant(db, ids, names, name, n) {
            Some(b) => exists|i: int| 0 <= i < n && names[i] == name && ids[i] == b.0,
            None => forall|i: int| 0 <= i < n ==> names[i] != name,
        },
    decreases n,
{
    if n > 0 {
        lemma_best_variant(db, ids, names, name, n - 1);
    }
}

proof fn lemma_first_names(names: Seq<Seq<char>>, n: int)
    requires
        0 <= n <= names.len(),
    ensures
        first_names(names, n).no_duplicates(),
        forall|x: Seq<char>|
            #[trigger] first_names(names, n).contains(x) <==> exists|i: int|
                0 <= i < n && names[i] == x,
    decreases n,
{
    if n > 0 {
        lemma_first_names(names, n - 1);
        let r = first_names(names, n - 1);
        let t = first_names(names, n);
        assert forall|x: Seq<char>| #[trigger] t.contains(x) <==> exists|i: int|
            0 <= i < n && names[i] == x by {
            if t.contains(x) {
                if r.contains(x) {
                } else {
                    let k = choose|k: int| 0 <= k < t.len() && t[k] == x;
                    if k < r.len() {
                        assert(r[k] == x);
                    }
                    assert(names[n - 1] == x);
                }
            }
            if exists|i: int| 0 <= i < n && names[i] == x {
                let i = choose|i: int| 0 <= i < n && names[i] == x;
                if i < n - 1 {
                    assert(r.contains(x));
                    let k = choose|k: int| 0 <= k < r.len() && r[k] == x;
                    assert(t[k] == x);
                } else if !r.contains(x) {
                    assert(t[r.len() as int] == x);
                }
            }
        }
    }
}

/// The starting build never holds more than three copies of a name, nor more
/// cards than a deck.
pub proof fn law_start_capped(v: nat, j: int)
    requires
        v > 0,
        0 <= j < v,
    ensures
        start_count(v, j) <= MAX_PER_NAME,
        start_total(v) <= DECK_SIZE,
{
    let t = start_total(v);
    vstd::arithmetic::div_mod::lemma_fundamental_div_mod(t as int, v as int);
    let q = t / v;
    let r = t % v;
    assert(q <= 3) by (nonlinear_arith)
        requires
            t == v * q + r,
            t <= 3 * v,
            0 <= r,
            v > 0,
    ;
    if t == 3 * v {
        vstd::arithmetic::div_mod::lemma_mod_multiples_basic(3, v as int);
        assert(r == 0);
    } else {
        assert(q < 3) by (nonlinear_arith)
            requires
                t == v * q + r,
                t < 3 * v,
                0 <= r,
                v > 0,
        ;
    }
}

/// Display order of a build's rows: more copies first, then by identifier.
pub open spec fn row_le(a: (Seq<char>, u32), b: (Seq<char>, u32)) -> bool {
    a.1 > b.1 || (a.1 == b.1 && text_le(a.0, b.0))
}

pub open spec fn row_order() -> spec_fn((Seq<char>, u32), (Seq<char>, u32)) -> bool {
    |a: (Seq<char>, u32), b: (Seq<char>, u32)| row_le(a, b)
}

proof fn lemma_row_order_total()
    ensures
        total_ordering(row_order()),
{
    lemma_text_order_total();
    assert forall|a: (Seq<char>, u32)| #[trigger] row_order()(a, a) by {
        assert(text_order()(a.0, a.0));
    }
    assert forall|a: (Seq<char>, u32), b: (Seq<char>, u32)|
        #[trigger] row_order()(a, b) && #[trigger] row_order()(b, a) implies a == b by {
        assert(text_order()(a.0, b.0) && text_order()(b.0, a.0) ==> a.0 == b.0);
    }
    assert forall|a: (Seq<char>, u32), b: (Seq<char>, u32), c: (Seq<char>, u32)|
        #[trigger] row_order()(a, b) && #[trigger] row_order()(b, c) implies row_order()(a, c) by {
        assert(text_order()(a.0, b.0) && text_order()(b.0, c.0) ==> text_order()(a.0, c.0));
    }
    assert forall|a: (Seq<char>, u32), b: (Seq<char>, u32)|
        #[trigger] row_order()(a, b) || #[trigger] row_order()(b, a) by {
        assert(text_order()(a.0, b.0) || text_order()(b.0, a.0));
    }
}

fn row_before(a: &(String, u32), b: &(String, u32)) -> (r: bool)
    ensures
        r == row_le((a.0@, a.1), (b.0@, b.1)),
{
    if a.1 != b.1 {
        a.1 > b.1
    } else {
        chars_le(&chars_of(a.0.as_str()), &chars_of(b.0.as_str()))
    }
}

/// The legal trades of one copy of `a` for one copy of a pool card, pool cards
/// among the first `m` in order.
pub open spec fn adds_for(
    s: Seq<(Seq<char>, u32)>,
    ids: Seq<Seq<char>>,
    names: Seq<Seq<char>>,
    a: Seq<char>,
    m: int,
) -> Seq<(Seq<char>, Seq<char>)>
    decreases m,
{
    if m <= 0 {
        Seq::empty()
    } else {
        let r = adds_for(s, ids, names, a, m - 1);
        if swap_ok(s, ids, names, a, ids[m - 1]) {
            r.push((a, ids[m - 1]))
        } else {
            r
        }
    }
}

/// The legal trades (card out, card in) that take one of the first `n` cards of
/// the build out, in build order, then pool order.
pub open spec fn swaps_upto(
    s: Seq<(Seq<char>, u32)>,
    ids: Seq<Seq<char>>,
    names: Seq<Seq<char>>,
    n: int,
) -> Seq<(Seq<char>, Seq<char>)>
    decreases n,
{
    if n <= 0 {
        Seq::empty()
    } else {
        swaps_upto(s, ids, names, n - 1) + adds_for(s, ids, names, s[n - 1].0, ids.len() as int)
    }
}

pub open spec fn swap_views(v: Seq<(String, String, DeckBuild)>) -> Seq<(Seq<char>, Seq<char>)> {
    v.map_values(|x: (String, String, DeckBuild)| (x.0@, x.1@))
}

/// Whether a card pitches for `v`.
pub open spec fn pitch_is(db: Seq<CardView>, v: u8) -> spec_fn(Seq<char>) -> bool {
    |id: Seq<char>|
        match lookup(db, id) {
            Some(c) => c.pitch_value == Some(v),
            None => false,
        }
}

/// Every identifier that occurs more than once carries the same name each time,
/// so that the palette maps each identifier to one name.
pub open spec fn one_name_per_id(ids: Seq<Seq<char>>, names: Seq<Seq<char>>) -> bool {
    forall|i: int, j: int|
        0 <= i < ids.len() && 0 <= j < ids.len() && ids[i] == ids[j] ==> #[trigger] names[i]
            == #[trigger] names[j]
}

/// The optimiser's palette: candidate identifiers in text order, each with its
/// card name at the same position.
pub struct Pool {
    pub ids: Vec<String>,
    pub names: Vec<String>,
}

impl Pool {
    /// The pool's name for identifier `id`.
    pub fn name_of(&self, id: &str) -> (r: Option<&str>)
        requires
            self.ids@.len() == self.names@.len(),
        ensures
            match r {
                Some(nm) => pool_name(strs(self.ids@), strs(self.names@), id@) == Some(nm@),
                None => pool_name(strs(self.ids@), strs(self.names@), id@) is None,
            },
    {
        proof {
            lemma_text_index(strs(self.ids@), id@, 0);
        }
        let n = self.ids.len();
        let mut i: usize = 0;
        while i < n
            invariant
                n == self.ids@.len(),
                n == self.names@.len(),
                i <= n,
                forall|j: int| 0 <= j < i ==> (#[trigger] self.ids@[j])@ != id@,
            decreases n - i,
        {
            if str_eq(self.ids[i].as_str(), id) {
                proof {
                    let ids = strs(self.ids@);
                    lemma_text_index(ids, id@, 0);
                    assert(ids[i as int] == id@);
                    match text_index(ids, id@, 0) {
                        Some(m) => {
                            assert(ids[m] == self.ids@[m]@);
                        },
                        None => {},
                    }
                    assert(text_index(ids, id@, 0) == Some(i as int));
                    assert(strs(self.names@)[i as int] == self.names@[i as int]@);
                }
                return Some(self.names[i].as_str());
            }
            i = i + 1;
        }
        proof {
            let ids = strs(self.ids@);
            lemma_text_index(ids, id@, 0);
            match text_index(ids, id@, 0) {
                Some(m) => {
                    assert(ids[m] == self.ids@[m]@);
                },
                None => {},
            }
        }
        None
    }
}

proof fn lemma_name_slot(r: Seq<(Seq<char>, i32)>, name: Seq<char>, i: int)
    requires
        0 <= i <= r.len(),
    ensures
        match name_slot(r, name, i) {
            Some(k) => i <= k < r.len() && r[k].0 == name && forall|j: int|
                i <= j < k ==> r[j].0 != name,
            None => forall|j: int| i <= j < r.len() ==> r[j].0 != name,
        },
    decreases r.len() - i,
{
    if i < r.len() {
        lemma_name_slot(r, name, i + 1);
    }
}

proof fn lemma_named_from_db(db: Seq<CardView>, chosen: Seq<Seq<char>>, n: int, x: Seq<char>)
    requires
        0 <= n <= db.len(),
        named_attack_ids(db, chosen, n).contains(x),
    ensures
        lookup(db, x) is Some,
    decreases n,
{
    let r = named_attack_ids(db, chosen, n - 1);
    if r.contains(x) {
        lemma_named_from_db(db, chosen, n - 1, x);
    } else {
        assert(db[n - 1].id == x);
        crate::db::lemma_find_from(db, x, 0);
    }
}

proof fn lemma_named_unique(db: Seq<CardView>, chosen: Seq<Seq<char>>, n: int)
    requires
        ids_unique(db),
        0 <= n <= db.len(),
    ensures
        named_attack_ids(db, chosen, n).no_duplicates(),
        forall|x: Seq<char>|
            #[trigger] named_attack_ids(db, chosen, n).contains(x) ==> exists|k: int|
                0 <= k < n && db[k].id == x,
    decreases n,
{
    if n > 0 {
        lemma_named_unique(db, chosen, n - 1);
        let r = named_attack_ids(db, chosen, n - 1);
        let t = named_attack_ids(db, chosen, n);
        if t != r {
            assert(t == r.push(db[n - 1].id));
            assert forall|x: Seq<char>| #[trigger] t.contains(x) implies exists|k: int|
                0 <= k < n && db[k].id == x by {
                if x != db[n - 1].id {
                    let i = choose|i: int| 0 <= i < t.len() && t[i] == x;
                    assert(r[i] == x);
                    assert(r.contains(x));
                }
            }
            assert forall|i: int, j: int| 0 <= i < t.len() && 0 <= j < t.len() && i != j implies t[i]
                != t[j] by {
                if i < r.len() && j < r.len() {
                } else if i < r.len() {
                    assert(r.contains(t[i]));
                    let k = choose|k: int| 0 <= k < n - 1 && db[k].id == r[i];
                    assert(db[k].id != db[n - 1].id);
                } else {
                    assert(r.contains(t[j]));
                    let k = choose|k: int| 0 <= k < n - 1 && db[k].id == r[j];
                    assert(db[k].id != db[n - 1].id);
                }
            }
        }
    }
}

proof fn lemma_pool_ids_unique(db: Seq<CardView>, n_names: nat)
    requires
        ids_unique(db),
    ensures
        pool_ids(db, n_names).no_duplicates(),
{
    let named = named_attack_ids(db, chosen_names(db, n_names), db.len() as int);
    lemma_named_unique(db, chosen_names(db, n_names), db.len() as int);
    lemma_text_order_total();
    named.lemma_sort_by_ensures(text_order());
    named.lemma_multiset_has_no_duplicates();
    named.sort_by(text_order()).lemma_multiset_has_no_duplicates_conv();
}

/// Whether `x` is one of the texts of `v`.
fn texts_contain(v: &Vec<String>, x: &str) -> (r: bool)
    ensures
        r == strs(v@).contains(x@),
{
    let mut i: usize = 0;
    while i < v.len()
        invariant
            i <= v@.len(),
            forall|j: int| 0 <= j < i ==> (#[trigger] v@[j])@ != x@,
        decreases v@.len() - i,
    {
        if str_eq(v[i].as_str(), x) {
            assert(strs(v@)[i as int] == x@);
            return true;
        }
        i = i + 1;
    }
    proof {
        if strs(v@).contains(x@) {
            let k = choose|k: int| 0 <= k < strs(v@).len() && strs(v@)[k] == x@;
            assert(v@[k]@ == x@);
        }
    }
    false
}

/// Chooses the palette: the `n_names` strongest Lightning or Runeblade attack
/// names by power (ties by name), then every attack card with one of those
/// names, in identifier order.
pub fn build_pool(db: &CardDb, n_names: usize) -> (r: Pool)
    ensures
        strs(r.ids@) == pool_ids(db@, n_names as nat),
        strs(r.ids@).no_duplicates(),
        r.names@.len() == r.ids@.len(),
        forall|i: int|
            0 <= i < r.ids@.len() ==> match lookup(db@, (#[trigger] r.ids@[i])@) {
                Some(c) => c.name == r.names@[i]@,
                None => false,
            },
{
    proof {
        use_type_invariant(db);
        lemma_pool_ids_unique(db@, n_names as nat);
    }
    let cards = db.iter();
    let ghost v = cards@.map_values(|c: Card| c@);
    let mut best: Vec<(String, i32)> = Vec::new();
    let mut i: usize = 0;
    while i < cards.len()
        invariant
            v == cards@.map_values(|c: Card| c@),
            v == db@,
            i <= cards@.len(),
            rank_views(best@) == best_powers(v, i as int),
        decreases cards@.len() - i,
    {
        let c = &cards[i];
        assert(v[i as int] == c@);
        let p = match c.power {
            Some(x) => x,
            None => 0,
        };
        let ghost r = rank_views(best@);
        if c.is_attack() && p > 0 && (c.has_talent(Talent::Lightning) || c.has_class(
            Class::Runeblade,
        )) {
            proof {
                lemma_name_slot(r, c.name@, 0);
            }
            let mut k: usize = 0;
            while k < best.len() && !str_eq(best[k].0.as_str(), c.name.as_str())
                invariant
                    r == rank_views(best@),
                    k <= best@.len(),
                    forall|j: int| 0 <= j < k ==> (#[trigger] r[j]).0 != c.name@,
                decreases best@.len() - k,
            {
                assert(r[k as int].0 == best@[k as int].0@);
                k = k + 1;
            }
            if k < best.len() {
                assert(r[k as int].0 == best@[k as int].0@);
                let prev = best[k].1;
                let m = if prev >= p {
                    prev
                } else {
                    p
                };
                proof {
                    match name_slot(r, c.name@, 0) {
                        Some(q) => {
                            if q < k {
                                assert(r[q].0 != c.name@);
                            }
                        },
                        None => {},
                    }
                }
                best.set(k, (c.name.clone(), m));
                assert(rank_views(best@) =~= r.update(k as int, (c.name@, m)));
            } else {
                best.push((c.name.clone(), p));
                assert(rank_views(best@) =~= r.push((c.name@, p)));
            }
        }
        i = i + 1;
    }
    let ranked = sort_ranked(best);
    let ghost rv = rank_views(ranked@);
    let m = if n_names < ranked.len() {
        n_names
    } else {
        ranked.len()
    };
    let mut chosen: Vec<String> = Vec::new();
    let mut j: usize = 0;
    while j < m
        invariant
            rv == rank_views(ranked@),
            m <= ranked@.len(),
            j <= m,
            strs(chosen@) == rv.take(j as int).map_values(|x: (Seq<char>, i32)| x.0),
        decreases m - j,
    {
        let ghost prev = strs(chosen@);
        let nm = ranked[j].0.clone();
        assert(nm@ == rv[j as int].0);
        chosen.push(nm);
        assert(strs(chosen@) =~= prev.push(rv[j as int].0));
        assert(strs(chosen@) =~= rv.take(j + 1).map_values(|x: (Seq<char>, i32)| x.0));
        j = j + 1;
    }
    let ghost ch = strs(chosen@);
    assert(ch == chosen_names(db@, n_names as nat));
    let mut ids: Vec<&str> = Vec::new();
    let mut keys: Vec<Vec<char>> = Vec::new();
    let mut i: usize = 0;
    while i < cards.len()
        invariant
            v == cards@.map_values(|c: Card| c@),
            v == db@,
            ch == strs(chosen@),
            i <= cards@.len(),
            keys@.len() == ids@.len(),
            forall|j: int| 0 <= j < keys@.len() ==> (#[trigger] keys@[j])@ == ids@[j]@,
            views_of(ids@) == named_attack_ids(v, ch, i as int),
        decreases cards@.len() - i,
    {
        let c = &cards[i];
        assert(v[i as int] == c@);
        if c.is_attack() && texts_contain(&chosen, c.name.as_str()) {
            let id = c.id.as_str();
            keys.push(chars_of(id));
            ids.push(id);
        }
        assert(views_of(ids@) =~= named_attack_ids(v, ch, i + 1));
        i = i + 1;
    }
    let sorted = sort_texts(ids, keys);
    let ghost named = named_attack_ids(v, ch, v.len() as int);
    proof {
        lemma_text_order_total();
        named.lemma_sort_by_ensures(text_order());
    }
    let mut out_ids: Vec<String> = Vec::new();
    let mut out_names: Vec<String> = Vec::new();
    let n = sorted.len();
    let mut k: usize = 0;
    while k < n
        invariant
            n == sorted@.len(),
            total_ordering(text_order()),
            views_of(sorted@) == named.sort_by(text_order()),
            forall|x: Seq<char>| !named.contains(x) ==> !(#[trigger] named.sort_by(text_order()).contains(x)),
            named == named_attack_ids(db@, ch, db@.len() as int),
            k <= n,
            strs(out_ids@) == views_of(sorted@).take(k as int),
            out_names@.len() == out_ids@.len(),
            forall|t: int|
                0 <= t < out_ids@.len() ==> match lookup(db@, (#[trigger] out_ids@[t])@) {
                    Some(c) => c.name == out_names@[t]@,
                    None => false,
                },
        decreases n - k,
    {
        let id = sorted[k];
        proof {
            assert(views_of(sorted@)[k as int] == id@);
            assert(named.sort_by(text_order()).contains(id@));
            lemma_named_from_db(db@, ch, db@.len() as int, id@);
        }
        let name = match db.get(id) {
            Some(card) => card.name.clone(),
            None => String::new(),
        };
        let ghost pi = strs(out_ids@);
        out_ids.push(String::from_str(id));
        out_names.push(name);
        assert(strs(out_ids@) =~= pi.push(id@));
        assert(strs(out_ids@) =~= views_of(sorted@).take(k + 1));
        k = k + 1;
    }
    assert(views_of(sorted@).take(n as int) =~= views_of(sorted@));
    Pool { ids: out_ids, names: out_names }
}

/// A card's power in the database; no such card, or no power, counts as 0.
fn power_of_id(db: &CardDb, id: &str) -> (r: i32)
    ensures
        r == power_in(db@, id@),
{
    match db.get(id) {
        Some(c) => match c.power {
            Some(p) => p,
            None => 0,
        },
        None => 0,
    }
}

/// The starting variant of `name`: the first identifier of highest power.
fn pool_variant(db: &CardDb, pool: &Pool, name: &str) -> (r: String)
    requires
        pool.ids@.len() == pool.names@.len(),
        strs(pool.names@).contains(name@),
    ensures
        r@ == variant_id(db@, strs(pool.ids@), strs(pool.names@), name@),
{
    let ghost ids = strs(pool.ids@);
    let ghost names = strs(pool.names@);
    let n = pool.ids.len();
    let mut found = false;
    let mut bi: usize = 0;
    let mut bp: i32 = -1;
    let mut i: usize = 0;
    while i < n
        invariant
            n == pool.ids@.len(),
            n == pool.names@.len(),
            ids == strs(pool.ids@),
            names == strs(pool.names@),
            i <= n,
            found ==> bi < n,
            best_variant(db@, ids, names, name@, i as int) == if found {
                Some((ids[bi as int], bp))
            } else {
                None
            },
        decreases n - i,
    {
        assert(names[i as int] == pool.names@[i as int]@);
        assert(ids[i as int] == pool.ids@[i as int]@);
        if str_eq(pool.names[i].as_str(), name) {
            let p = power_of_id(db, pool.ids[i].as_str());
            if !found {
                found = true;
                bi = i;
                bp = if p > -1 {
                    p
                } else {
                    -1
                };
            } else if p > bp {
                bi = i;
                bp = p;
            }
        }
        i = i + 1;
    }
    proof {
        lemma_best_variant(db@, ids, names, name@, n as int);
        let k = choose|k: int| 0 <= k < names.len() && names[k] == name@;
    }
    if found {
        assert(ids[bi as int] == pool.ids@[bi as int]@);
        pool.ids[bi].clone()
    } else {
        String::new()
    }
}

/// The distinct names of the pool in text order.
fn start_names(pool: &Pool) -> (r: Vec<String>)
    ensures
        strs(r@) == first_names(strs(pool.names@), pool.names@.len() as int).sort_by(
            text_order(),
        ),
{
    let ghost names = strs(pool.names@);
    let n = pool.names.len();
    let mut seen: Vec<String> = Vec::new();
    let mut keys: Vec<Vec<char>> = Vec::new();
    let mut i: usize = 0;
    while i < n
        invariant
            n == pool.names@.len(),
            names == strs(pool.names@),
            i <= n,
            keys@.len() == seen@.len(),
            forall|j: int| 0 <= j < keys@.len() ==> (#[trigger] keys@[j])@ == seen@[j]@,
            strs(seen@) == first_names(names, i as int),
        decreases n - i,
    {
        assert(names[i as int] == pool.names@[i as int]@);
        if !texts_contain(&seen, pool.names[i].as_str()) {
            let nm = pool.names[i].clone();
            let ghost prev = strs(seen@);
            keys.push(chars_of(nm.as_str()));
            seen.push(nm);
            assert(strs(seen@) =~= prev.push(names[i as int]));
        }
        i = i + 1;
    }
    let r = sort_texts(seen, keys);
    assert(views_of(r@) =~= strs(r@));
    r
}

/// The starting build: one variant per pool name (its first identifier of
/// highest power), names in text order, dealt one copy each in turn, at most
/// three per name, until the deck is full.
pub fn initial_build(db: &CardDb, pool: &Pool) -> (r: DeckBuild)
    requires
        pool.ids@.len() == pool.names@.len(),
        one_name_per_id(strs(pool.ids@), strs(pool.names@)),
        forall|i: int| 0 <= i < pool.ids@.len() ==> lookup(db@, (#[trigger] pool.ids@[i])@) is Some,
    ensures
        ({
            let vs = start_variants(db@, strs(pool.ids@), strs(pool.names@));
            &&& forall|j: int|
                0 <= j < vs.len() ==> count_of(r@, #[trigger] vs[j]) == start_count(vs.len(), j)
            &&& forall|x: Seq<char>| !vs.contains(x) ==> count_of(r@, x) == 0
            &&& total_of(r@) == start_total(vs.len())
        }),
{
    let ghost ids = strs(pool.ids@);
    let ghost names = strs(pool.names@);
    let ghost sn = first_names(names, names.len() as int).sort_by(text_order());
    let ghost vs = start_variants(db@, ids, names);
    proof {
        lemma_first_names(names, names.len() as int);
        lemma_text_order_total();
        first_names(names, names.len() as int).lemma_sort_by_ensures(text_order());
        first_names(names, names.len() as int).lemma_multiset_has_no_duplicates();
        sn.lemma_multiset_has_no_duplicates_conv();
    }
    let sorted = start_names(pool);
    let v = sorted.len();
    let mut variants: Vec<String> = Vec::new();
    let mut j: usize = 0;
    while j < v
        invariant
            v == sorted@.len(),
            strs(sorted@) == sn,
            sn == first_names(names, names.len() as int).sort_by(text_order()),
            forall|x: Seq<char>|
                !first_names(names, names.len() as int).contains(x) ==> !(
                #[trigger] sn.contains(x)),
            forall|x: Seq<char>|
                #[trigger] first_names(names, names.len() as int).contains(x) <==> exists|i: int|
                    0 <= i < names.len() && names[i] == x,
            ids == strs(pool.ids@),
            names == strs(pool.names@),
            pool.ids@.len() == pool.names@.len(),
            vs == start_variants(db@, ids, names),
            j <= v,
            strs(variants@) == vs.take(j as int),
        decreases v - j,
    {
        proof {
            assert(sn[j as int] == sorted@[j as int]@);
            assert(sn.contains(sn[j as int]));
            let i = choose|i: int| 0 <= i < names.len() && names[i] == sn[j as int];
            assert(names.contains(sorted@[j as int]@));
        }
        let id = pool_variant(db, pool, sorted[j].as_str());
        assert(vs[j as int] == variant_id(db@, ids, names, sn[j as int]));
        let ghost prev = strs(variants@);
        variants.push(id);
        assert(strs(variants@) =~= prev.push(vs[j as int]));
        assert(strs(variants@) =~= vs.take(j + 1));
        j = j + 1;
    }
    assert(vs.take(v as int) =~= vs);
    proof {
        assert forall|a: int, c: int| 0 <= a < vs.len() && 0 <= c < vs.len() && a != c implies vs[a]
            != vs[c] by {
            assert(vs[a] == variant_id(db@, ids, names, sn[a]));
            assert(vs[c] == variant_id(db@, ids, names, sn[c]));
            assert(sn.contains(sn[a]));
            assert(sn.contains(sn[c]));
            lemma_best_variant(db@, ids, names, sn[a], ids.len() as int);
            lemma_best_variant(db@, ids, names, sn[c], ids.len() as int);
            let ia = choose|i: int| 0 <= i < names.len() && names[i] == sn[a];
            let ic = choose|i: int| 0 <= i < names.len() && names[i] == sn[c];
            if vs[a] == vs[c] {
                let pa = choose|i: int| 0 <= i < ids.len() && names[i] == sn[a] && ids[i] == vs[a];
                let pc = choose|i: int| 0 <= i < ids.len() && names[i] == sn[c] && ids[i] == vs[c];
                assert(names[pa] == names[pc]);
            }
        }
    }
    let mut b = DeckBuild::new();
    if v == 0 {
        return b;
    }
    let t: usize = if v < 20 {
        3 * v
    } else {
        60
    };
    let q = t / v;
    let rem = t % v;
    proof {
        assert(t == start_total(v as nat));
        vstd::arithmetic::div_mod::lemma_fundamental_div_mod(t as int, v as int);
        assert(q * v + rem == t) by (nonlinear_arith)
            requires
                t == v * (t / v) + t % v,
                q == t / v,
                rem == t % v,
        ;
        assert(q <= 3) by (nonlinear_arith)
            requires
                q * v + rem == t,
                t <= 3 * v,
                rem >= 0,
                v > 0,
        ;
    }
    let mut j: usize = 0;
    while j < v
        invariant
            v == vs.len(),
            v > 0,
            strs(variants@) == vs,
            vs.no_duplicates(),
            t == start_total(v as nat),
            q == t / v,
            rem == t % v,
            q * v + rem == t,
            t <= 60,
            j <= v,
            build_ok(b@),
            forall|k: int| 0 <= k < j ==> count_of(b@, #[trigger] vs[k]) == start_count(v as nat, k),
            forall|x: Seq<char>| !vs.take(j as int).contains(x) ==> count_of(b@, x) == 0,
            total_of(b@) == q * j + if j < rem {
                j as int
            } else {
                rem as int
            },
        decreases v - j,
    {
        let c = if j < rem {
            q + 1
        } else {
            q
        };
        let ghost id = vs[j as int];
        proof {
            assert(q * (j + 1) <= q * v) by (nonlinear_arith)
                requires
                    j + 1 <= v,
                    q >= 0,
            ;
            assert(q * (j + 1) == q * j + q) by (nonlinear_arith);
            assert(!vs.take(j as int).contains(id)) by {
                if vs.take(j as int).contains(id) {
                    let k = choose|k: int| 0 <= k < j && vs.take(j as int)[k] == id;
                    assert(vs[k] == vs[j as int]);
                }
            }
        }
        let mut k: usize = 0;
        while k < c
            invariant
                v == vs.len(),
                j < v,
                id == vs[j as int],
                strs(variants@) == vs,
                vs.no_duplicates(),
                t == start_total(v as nat),
                q == t / v,
                rem == t % v,
                q * v + rem == t,
                t <= 60,
                q * (j + 1) <= q * v,
                q * (j + 1) == q * j + q,
                c == q + (if j < rem {
                    1int
                } else {
                    0int
                }),
                k <= c,
                build_ok(b@),
                forall|m: int| 0 <= m < j ==> count_of(b@, #[trigger] vs[m]) == start_count(v as nat, m),
                count_of(b@, id) == k,
                forall|x: Seq<char>| !vs.take(j + 1).contains(x) ==> count_of(b@, x) == 0,
                total_of(b@) == q * j + (if j < rem {
                    j as int
                } else {
                    rem as int
                }) + k,
            decreases c - k,
        {
            let ghost before = b@;
            assert(variants@[j as int]@ == id);
            b.add_one(variants[j].clone());
            proof {
                assert forall|x: Seq<char>| count_of(b@, x) == count_of(before, x) + if x == id {
                    1int
                } else {
                    0int
                } by {
                    law_add_counts(before, id, x);
                }
                assert forall|m: int| 0 <= m < j implies count_of(b@, #[trigger] vs[m])
                    == start_count(v as nat, m) by {
                    assert(vs[m] != vs[j as int]);
                    assert(count_of(b@, vs[m]) == count_of(before, vs[m]));
                }
                assert forall|x: Seq<char>| !vs.take(j + 1).contains(x) implies count_of(b@, x)
                    == 0 by {
                    assert(vs.take(j + 1)[j as int] == id);
                    assert(count_of(b@, x) == count_of(before, x));
                }
            }
            k = k + 1;
        }
        proof {
            assert(count_of(b@, vs[j as int]) == start_count(v as nat, j as int));
            assert forall|x: Seq<char>| !vs.take(j + 1).contains(x) implies count_of(b@, x)
                == 0 by {}
        }
        j = j + 1;
    }
    assert(vs.take(v as int) =~= vs);
    proof {
        assert(start_total(v as nat) == t);
    }
    b
}

/// Card quantities keyed by identifier, kept in identifier order.
pub struct DeckBuild {
    entries: Vec<(String, u32)>,
}

impl View for DeckBuild {
    type V = Seq<(Seq<char>, u32)>;

    closed spec fn view(&self) -> Seq<(Seq<char>, u32)> {
        entry_views(self.entries@)
    }
}

impl DeckBuild {
    #[verifier::type_invariant]
    spec fn inv(self) -> bool {
        build_ok(entry_views(self.entries@))
    }

    /// The empty build.
    pub fn new() -> (r: Self)
        ensures
            r@ == Seq::<(Seq<char>, u32)>::empty(),
            build_ok(r@),
    {
        let r = DeckBuild { entries: Vec::new() };
        assert(entry_views(r.entries@) =~= Seq::<(Seq<char>, u32)>::empty());
        r
    }

    fn duplicate(&self) -> (r: Self)
        ensures
            r@ == self@,
    {
        proof {
            use_type_invariant(self);
        }
        let mut v: Vec<(String, u32)> = Vec::new();
        let n = self.entries.len();
        let mut i: usize = 0;
        while i < n
            invariant
                n == self@.len(),
                i <= n,
                entry_views(v@) == self@.take(i as int),
            decreases n - i,
        {
            let e = (self.entries[i].0.clone(), self.entries[i].1);
            let ghost ev = (e.0@, e.1);
            assert(ev == self@[i as int]);
            let ghost prev = entry_views(v@);
            v.push(e);
            assert(entry_views(v@) =~= prev.push(ev));
            assert(entry_views(v@) =~= self@.take(i + 1));
            i = i + 1;
        }
        assert(self@.take(n as int) =~= self@);
        DeckBuild { entries: v }
    }

    /// The build after trading one copy of `remove` for one copy of `add`, when
    /// the trade is legal: the cards differ, the added card's name stays within
    /// its copy limit, and the deck stays full.
    pub fn try_swap(&self, pool: &Pool, remove: &str, add: &str) -> (r: Option<DeckBuild>)
        requires
            count_of(self@, remove@) > 0,
            pool.ids@.len() == pool.names@.len(),
            pool_name(strs(pool.ids@), strs(pool.names@), add@) is Some,
        ensures
            r is Some <==> swap_ok(self@, strs(pool.ids@), strs(pool.names@), remove@, add@),
            r is Some ==> r->0@ == add_spec(remove_spec(self@, remove@), add@),
            r is Some ==> total_of(r->0@) == DECK_SIZE,
            r is Some ==> name_total_of(
                r->0@,
                strs(pool.ids@),
                strs(pool.names@),
                pool_name(strs(pool.ids@), strs(pool.names@), add@)->0,
            ) <= MAX_PER_NAME,
    {
        proof {
            use_type_invariant(self);
        }
        if str_eq(remove, add) {
            return None;
        }
        let mut cand = self.duplicate();
        cand.remove_one(remove);
        let bname = match pool.name_of(add) {
            Some(nm) => nm,
            None => {
                return None;
            },
        };
        let ghost keep = |id: Seq<char>| pool_name(strs(pool.ids@), strs(pool.names@), id) == Some(
            bname@,
        );
        proof {
            lemma_filtered_le_total(cand@, keep);
        }
        if cand.name_total(pool, bname) + 1 > MAX_PER_NAME {
            return None;
        }
        let ghost removed = cand@;
        cand.add_one(String::from_str(add));
        proof {
            law_add_filtered(removed, add@, keep);
        }
        if cand.total() != DECK_SIZE {
            return None;
        }
        Some(cand)
    }

    /// The build's rows for display: more copies first, then by identifier.
    pub fn rows(&self) -> (r: Vec<(String, u32)>)
        ensures
            entry_views(r@) == self@.sort_by(row_order()),
    {
        let mut out: Vec<(String, u32)> = Vec::new();
        let n = self.entries.len();
        let mut i: usize = 0;
        proof {
            lemma_row_order_total();
            broadcast use vstd::seq_lib::group_to_multiset_ensures;
            broadcast use vstd::multiset::group_multiset_axioms;
            assert(entry_views(out@) =~= Seq::<(Seq<char>, u32)>::empty());
            assert(self@.take(0) =~= Seq::<(Seq<char>, u32)>::empty());
        }
        while i < n
            invariant
                total_ordering(row_order()),
                n == self@.len(),
                i <= n,
                sorted_by(entry_views(out@), row_order()),
                entry_views(out@).to_multiset() == self@.take(i as int).to_multiset(),
            decreases n - i,
        {
            let x = (self.entries[i].0.clone(), self.entries[i].1);
            let ghost xv = (x.0@, x.1);
            assert(xv == self@[i as int]);
            let ghost pre_out = entry_views(out@);
            let mut pos: usize = 0;
            while pos < out.len() && !row_before(&x, &out[pos])
                invariant
                    pre_out == entry_views(out@),
                    xv == (x.0@, x.1),
                    pos <= out@.len(),
                    forall|k: int| 0 <= k < pos ==> !row_le(xv, #[trigger] pre_out[k]),
                decreases out@.len() - pos,
            {
                pos = pos + 1;
            }
            out.insert(pos, x);
            proof {
                let nv = entry_views(out@);
                assert(nv =~= pre_out.insert(pos as int, xv));
                vstd::seq_lib::to_multiset_insert(pre_out, pos as int, xv);
                assert(self@.take(i + 1) =~= self@.take(i as int).push(xv));
                vstd::seq_lib::to_multiset_build(self@.take(i as int), xv);
                assert forall|a: int, b: int| 0 <= a < b < nv.len() implies #[trigger] row_order()(
                    nv[a],
                    nv[b],
                ) by {
                    if b < pos {
                        assert(row_order()(pre_out[a], pre_out[b]));
                    } else if a > pos {
                        assert(row_order()(pre_out[a - 1], pre_out[b - 1]));
                    } else if a == pos {
                        assert(row_order()(xv, pre_out[pos as int]));
                        if b - 1 > pos {
                            assert(row_order()(pre_out[pos as int], pre_out[b - 1]));
                        }
                    } else if b == pos {
                        assert(!row_le(xv, pre_out[a]));
                        assert(row_order()(pre_out[a], xv) || row_order()(xv, pre_out[a]));
                    } else {
                        assert(row_order()(pre_out[a], pre_out[b - 1]));
                    }
                }
            }
            i = i + 1;
        }
        proof {
            assert(self@.take(n as int) =~= self@);
            self@.lemma_sort_by_ensures(row_order());
            vstd::seq_lib::lemma_sorted_unique(entry_views(out@), self@.sort_by(row_order()), row_order());
        }
        out
    }

    /// The identifiers in the build, in identifier order.
    pub fn ids(&self) -> (r: Vec<String>)
        ensures
            strs(r@) == self@.map_values(|e: (Seq<char>, u32)| e.0),
    {
        let mut out: Vec<String> = Vec::new();
        let n = self.entries.len();
        let mut i: usize = 0;
        while i < n
            invariant
                n == self@.len(),
                i <= n,
                strs(out@) == self@.take(i as int).map_values(|e: (Seq<char>, u32)| e.0),
            decreases n - i,
        {
            let id = self.entries[i].0.clone();
            let ghost prev = strs(out@);
            assert(id@ == self@[i as int].0);
            out.push(id);
            assert(strs(out@) =~= prev.push(self@[i as int].0));
            assert(strs(out@) =~= self@.take(i + 1).map_values(|e: (Seq<char>, u32)| e.0));
            i = i + 1;
        }
        assert(self@.take(n as int) =~= self@);
        out
    }

    /// Every legal single-card trade of the build, in build order of the card
    /// taken out and pool order of the card put in, each with the build it gives.
    pub fn candidate_swaps(&self, pool: &Pool) -> (r: Vec<(String, String, DeckBuild)>)
        requires
            pool.ids@.len() == pool.names@.len(),
        ensures
            swap_views(r@) == swaps_upto(
                self@,
                strs(pool.ids@),
                strs(pool.names@),
                self@.len() as int,
            ),
            forall|k: int|
                0 <= k < r@.len() ==> (#[trigger] r@[k]).2@ == add_spec(
                    remove_spec(self@, r@[k].0@),
                    r@[k].1@,
                ),
    {
        proof {
            use_type_invariant(self);
        }
        let ghost ids = strs(pool.ids@);
        let ghost names = strs(pool.names@);
        let mut out: Vec<(String, String, DeckBuild)> = Vec::new();
        let n = self.entries.len();
        let m = pool.ids.len();
        let mut i: usize = 0;
        while i < n
            invariant
                n == self@.len(),
                m == pool.ids@.len(),
                m == pool.names@.len(),
                ids == strs(pool.ids@),
                names == strs(pool.names@),
                build_ok(self@),
                i <= n,
                swap_views(out@) == swaps_upto(self@, ids, names, i as int),
                forall|k: int|
                    0 <= k < out@.len() ==> (#[trigger] out@[k]).2@ == add_spec(
                        remove_spec(self@, out@[k].0@),
                        out@[k].1@,
                    ),
            decreases n - i,
        {
            let a = self.entries[i].0.as_str();
            let ghost av = self@[i as int].0;
            assert(a@ == av);
            proof {
                lemma_key_index(self@, av, 0);
                match key_index(self@, av, 0) {
                    Some(q) => {
                        if q != i {
                            if q < i {
                                assert(self@[q].0 != self@[i as int].0);
                            }
                        }
                    },
                    None => {},
                }
                assert(key_index(self@, av, 0) == Some(i as int));
                assert(self@[i as int].1 > 0);
            }
            let ghost base = swap_views(out@);
            let mut j: usize = 0;
            while j < m
                invariant
                    n == self@.len(),
                    m == pool.ids@.len(),
                    m == pool.names@.len(),
                    ids == strs(pool.ids@),
                    names == strs(pool.names@),
                    i < n,
                    a@ == av,
                    av == self@[i as int].0,
                    count_of(self@, av) > 0,
                    j <= m,
                    swap_views(out@) == base + adds_for(self@, ids, names, av, j as int),
                    forall|k: int|
                        0 <= k < out@.len() ==> (#[trigger] out@[k]).2@ == add_spec(
                            remove_spec(self@, out@[k].0@),
                            out@[k].1@,
                        ),
                decreases m - j,
            {
                let b = pool.ids[j].as_str();
                proof {
                    assert(b@ == ids[j as int]);
                    lemma_text_index(ids, b@, 0);
                    match text_index(ids, b@, 0) {
                        Some(_) => {},
                        None => {
                            assert(ids[j as int] == b@);
                        },
                    }
                }
                let ghost prev = swap_views(out@);
                match self.try_swap(pool, a, b) {
                    Some(cand) => {
                        let x = (String::from_str(a), String::from_str(b), cand);
                        out.push(x);
                        assert(swap_views(out@) =~= prev.push((av, ids[j as int])));
                    },
                    None => {},
                }
                assert(swap_views(out@) =~= base + adds_for(self@, ids, names, av, j + 1));
                j = j + 1;
            }
            i = i + 1;
        }
        out
    }

    /// Copies of `id` in the build.
    pub fn count(&self, id: &str) -> (r: u32)
        ensures
            r == count_of(self@, id@),
    {
        proof {
            lemma_key_index(self@, id@, 0);
        }
        let mut i: usize = 0;
        while i < self.entries.len()
            invariant
                i <= self.entries@.len(),
                forall|j: int| 0 <= j < i ==> (#[trigger] self@[j]).0 != id@,
            decreases self.entries@.len() - i,
        {
            if str_eq(self.entries[i].0.as_str(), id) {
                proof {
                    lemma_key_index_at(self@, id@, i as int);
                }
                return self.entries[i].1;
            }
            i = i + 1;
        }
        0
    }

    /// One more copy of `id`.
    pub fn add_one(&mut self, id: String)
        requires
            total_of(old(self)@) < u32::MAX,
        ensures
            final(self)@ == add_spec(old(self)@, id@),
            build_ok(final(self)@),
            total_of(final(self)@) == total_of(old(self)@) + 1,
    {
        proof {
            use_type_invariant(&*self);
            lemma_text_order_total();
        }
        let key = chars_of(id.as_str());
        let mut v: Vec<(String, u32)> = Vec::new();
        std::mem::swap(&mut v, &mut self.entries);
        let ghost s = entry_views(v@);
        let n = v.len();
        let mut i: usize = 0;
        loop
            invariant
                total_ordering(text_order()),
                key@ == id@,
                s == entry_views(v@),
                n == v@.len(),
                i <= n,
                forall|j: int| 0 <= j < i ==> text_le(#[trigger] s[j].0, id@) && s[j].0 != id@,
            ensures
                i <= n,
                forall|j: int| 0 <= j < i ==> text_le(#[trigger] s[j].0, id@) && s[j].0 != id@,
                i < n ==> text_le(id@, s[i as int].0),
            decreases n - i,
        {
            if i >= n {
                break;
            }
            let cur = chars_of(v[i].0.as_str());
            assert(s[i as int].0 == v@[i as int].0@);
            if chars_le(&key, &cur) {
                break;
            }
            proof {
                assert(text_order()(id@, s[i as int].0) || text_order()(s[i as int].0, id@));
                assert(text_order()(id@, id@));
            }
            i = i + 1;
        }
        proof {
            lemma_key_index(s, id@, 0);
        }
        if i < v.len() && str_eq(v[i].0.as_str(), id.as_str()) {
            let c = v[i].1;
            proof {
                lemma_key_index_at(s, id@, i as int);
                lemma_total_update(s, i as int, (id@, 0u32));
                lemma_total_update(s, i as int, (id@, (c + 1) as u32));
            }
            v.set(i, (id, c + 1));
            proof {
                assert(entry_views(v@) =~= s.update(i as int, (s[i as int].0, (c + 1) as u32)));
            }
        } else {
            let ghost ni = i as int;
            proof {
                assert forall|j: int| 0 <= j < s.len() implies s[j].0 != id@ by {
                    if j >= ni {
                        assert(text_order()(id@, s[ni].0));
                        if j > ni {
                            assert(text_order()(s[ni].0, s[j].0));
                        }
                        if s[j].0 == id@ {
                            assert(text_order()(s[ni].0, id@));
                        }
                    }
                }
                if ni < s.len() {
                    assert(text_order()(id@, s[ni].0));
                    if text_le(s[ni].0, id@) {
                        assert(text_order()(s[ni].0, id@));
                    }
                }
                lemma_first_not_below(s, id@, 0, ni);
                lemma_total_insert(s, ni, (id@, 1u32));
            }
            v.insert(i, (id, 1));
            proof {
                let ns = entry_views(v@);
                assert(ns =~= s.insert(ni, (id@, 1u32)));
                assert forall|p: int, q: int| 0 <= p < q < ns.len() implies text_le(
                    #[trigger] ns[p].0,
                    #[trigger] ns[q].0,
                ) && ns[p].0 != ns[q].0 by {
                    if q < ni {
                        assert(text_le(s[p].0, s[q].0));
                    } else if q == ni {
                    } else if p < ni {
                        assert(text_le(s[p].0, s[q - 1].0));
                    } else if p == ni {
                        assert(text_order()(id@, s[ni].0));
                        if q - 1 > ni {
                            assert(text_le(s[ni].0, s[q - 1].0));
                            assert(text_order()(s[ni].0, s[q - 1].0));
                        }
                    } else {
                        assert(text_le(s[p - 1].0, s[q - 1].0));
                    }
                }
                assert forall|j: int| 0 <= j < ns.len() implies #[trigger] ns[j].1 > 0 by {
                    if j < ni {
                        assert(s[j].1 > 0);
                    } else if j > ni {
                        assert(s[j - 1].1 > 0);
                    }
                }
            }
        }
        self.entries = v;
    }

    /// One copy of `id` fewer; an identifier with no copy left goes.
    pub fn remove_one(&mut self, id: &str)
        requires
            count_of(old(self)@, id@) > 0,
        ensures
            final(self)@ == remove_spec(old(self)@, id@),
            build_ok(final(self)@),
            total_of(final(self)@) + 1 == total_of(old(self)@),
    {
        proof {
            use_type_invariant(&*self);
            lemma_key_index(self@, id@, 0);
        }
        let mut v: Vec<(String, u32)> = Vec::new();
        std::mem::swap(&mut v, &mut self.entries);
        let ghost s = entry_views(v@);
        let ghost k = key_index(s, id@, 0)->0;
        let n = v.len();
        let mut i: usize = 0;
        while !str_eq(v[i].0.as_str(), id)
            invariant
                s == entry_views(v@),
                n == v@.len(),
                0 <= i <= k < s.len(),
                s[k].0 == id@,
                forall|j: int| 0 <= j < k ==> s[j].0 != id@,
            decreases k - i,
        {
            assert(s[i as int].0 == v@[i as int].0@);
            i = i + 1;
        }
        assert(s[i as int].0 == v@[i as int].0@);
        assert(i == k);
        let c = v[i].1;
        if c > 1 {
            proof {
                lemma_total_update(s, k, (id@, (c - 1) as u32));
            }
            v.set(i, (String::from_str(id), c - 1));
            proof {
                assert(entry_views(v@) =~= s.update(k, (id@, (c - 1) as u32)));
            }
        } else {
            proof {
                lemma_total_remove(s, k);
            }
            v.remove(i);
            proof {
                let ns = entry_views(v@);
                assert(ns =~= s.remove(k));
                assert forall|p: int, q: int| 0 <= p < q < ns.len() implies text_le(
                    #[trigger] ns[p].0,
                    #[trigger] ns[q].0,
                ) && ns[p].0 != ns[q].0 by {
                    if q < k {
                        assert(text_le(s[p].0, s[q].0));
                    } else if p < k {
                        assert(text_le(s[p].0, s[q + 1].0));
                    } else {
                        assert(text_le(s[p + 1].0, s[q + 1].0));
                    }
                }
                assert forall|j: int| 0 <= j < ns.len() implies #[trigger] ns[j].1 > 0 by {
                    if j < k {
                        assert(s[j].1 > 0);
                    } else {
                        assert(s[j + 1].1 > 0);
                    }
                }
            }
        }
        self.entries = v;
    }

    /// The main deck this build stands for: each identifier repeated by its
    /// count, in identifier order.
    pub fn to_cards(&self) -> (r: Vec<String>)
        ensures
            strs(r@) == cards_of(self@),
    {
        let mut out: Vec<String> = Vec::new();
        let n = self.entries.len();
        let mut i: usize = 0;
        assert(strs(out@) =~= cards_of(self@.take(0)));
        while i < n
            invariant
                n == self@.len(),
                i <= n,
                strs(out@) == cards_of(self@.take(i as int)),
            decreases n - i,
        {
            let c = self.entries[i].1;
            let ghost before = strs(out@);
            let ghost key = self@[i as int].0;
            let mut j: u32 = 0;
            while j < c
                invariant
                    n == self@.len(),
                    i < n,
                    c == self@[i as int].1,
                    key == self@[i as int].0,
                    j <= c,
                    strs(out@) == before + Seq::new(j as nat, |_t: int| key),
                decreases c - j,
            {
                let id = self.entries[i].0.clone();
                assert(id@ == key);
                let ghost prev = strs(out@);
                out.push(id);
                assert(strs(out@) =~= prev.push(key));
                j = j + 1;
                assert(strs(out@) =~= before + Seq::new(j as nat, |_t: int| key));
            }
            assert(self@.take(i + 1).drop_last() =~= self@.take(i as int));
            i = i + 1;
        }
        assert(self@.take(n as int) =~= self@);
        out
    }

    /// Copies in the build of the pool's cards named `name`.
    pub fn name_total(&self, pool: &Pool, name: &str) -> (r: u32)
        requires
            pool.ids@.len() == pool.names@.len(),
        ensures
            r == name_total_of(self@, strs(pool.ids@), strs(pool.names@), name@),
    {
        proof {
            use_type_invariant(self);
        }
        let ghost keep = |id: Seq<char>| pool_name(strs(pool.ids@), strs(pool.names@), id) == Some(
            name@,
        );
        let mut sum: u32 = 0;
        let n = self.entries.len();
        let mut i: usize = 0;
        while i < n
            invariant
                n == self@.len(),
                i <= n,
                total_of(self@) <= u32::MAX,
                pool.ids@.len() == pool.names@.len(),
                keep == (|id: Seq<char>| pool_name(strs(pool.ids@), strs(pool.names@), id) == Some(
                    name@,
                )),
                sum == filtered_total(self@.take(i as int), keep),
            decreases n - i,
        {
            let named = match pool.name_of(self.entries[i].0.as_str()) {
                Some(nm) => str_eq(nm, name),
                None => false,
            };
            proof {
                assert(self@.take(i + 1).drop_last() =~= self@.take(i as int));
                lemma_filtered_le_total(self@.take(i + 1), keep);
                lemma_total_prefix(self@, i + 1);
            }
            if named {
                sum = sum + self.entries[i].1;
            }
            i = i + 1;
        }
        assert(self@.take(n as int) =~= self@);
        sum
    }

    /// Copies with pitch 1 (red), 2 (yellow) and 3 (blue).
    pub fn pitch_curve(&self, db: &CardDb) -> (r: (u32, u32, u32))
        ensures
            r.0 == pitch_total_of(db@, self@, 1),
            r.1 == pitch_total_of(db@, self@, 2),
            r.2 == pitch_total_of(db@, self@, 3),
    {
        proof {
            use_type_invariant(self);
        }
        let ghost k1 = pitch_is(db@, 1);
        let ghost k2 = pitch_is(db@, 2);
        let ghost k3 = pitch_is(db@, 3);
        let mut red: u32 = 0;
        let mut yellow: u32 = 0;
        let mut blue: u32 = 0;
        let n = self.entries.len();
        let mut i: usize = 0;
        while i < n
            invariant
                n == self@.len(),
                i <= n,
                total_of(self@) <= u32::MAX,
                k1 == pitch_is(db@, 1),
                k2 == pitch_is(db@, 2),
                k3 == pitch_is(db@, 3),
                red == filtered_total(self@.take(i as int), k1),
                yellow == filtered_total(self@.take(i as int), k2),
                blue == filtered_total(self@.take(i as int), k3),
            decreases n - i,
        {
            proof {
                assert(self@.take(i + 1).drop_last() =~= self@.take(i as int));
                lemma_filtered_le_total(self@.take(i + 1), k1);
                lemma_filtered_le_total(self@.take(i + 1), k2);
                lemma_filtered_le_total(self@.take(i + 1), k3);
                lemma_total_prefix(self@, i + 1);
            }
            let c = self.entries[i].1;
            match db.get(self.entries[i].0.as_str()) {
                Some(card) => match card.pitch_value {
                    Some(1) => red = red + c,
                    Some(2) => yellow = yellow + c,
                    Some(3) => blue = blue + c,
                    _ => {},
                },
                None => {},
            }
            i = i + 1;
        }
        assert(self@.take(n as int) =~= self@);
        (red, yellow, blue)
    }

    /// Total number of copies.
    pub fn total(&self) -> (r: u32)
        ensures
            r == total_of(self@),
    {
        proof {
            use_type_invariant(self);
        }
        let mut sum: u32 = 0;
        let mut i: usize = 0;
        while i < self.entries.len()
            invariant
                i <= self.entries@.len(),
                total_of(self@) <= u32::MAX,
                sum == total_of(self@.take(i as int)),
            decreases self.entries@.len() - i,
        {
            proof {
                assert(self@.take(i + 1).drop_last() =~= self@.take(i as int));
                lemma_total_append(self@.take(i + 1), self@.skip(i + 1));
                assert(self@.take(i + 1) + self@.skip(i + 1) =~= self@);
            }
            sum = sum + self.entries[i].1;
            i = i + 1;
        }
        assert(self@.take(i as int) =~= self@);
        sum
    }
}

} // verus!

//! The card model and keyword detection.

use crate::text::{
    chars_of, contains_seq, lower_char, occurs_at, contains_str, list_items, lower_seq, parse_i32_range, parse_i32_spec,
    parse_u8_range, parse_u8_spec, ranges_match_split, split_ranges, split_seq, str_eq,
    string_of_range, to_lower,
};
use crate::types::{
    card_type_named, class_named, pitch_of_value, pitch_resources, slot_named, talent_named,
    CardType, Class, EquipSlot, Pitch, Talent,
};
use vstd::prelude::*;

verus! {

/// The chars of every string in `v`.
pub open spec fn strs(v: Seq<String>) -> Seq<Seq<char>> {
    v.map_values(|s: String| s@)
}

/// Keywords relevant to simulation, parsed from the rules text.
#[derive(Debug, Clone, Copy, Default, PartialEq, Eq, Structural)]
pub struct Keywords {
    pub go_again: bool,
    pub dominate: bool,
    pub intimidate: bool,
    pub overpower: bool,
    pub draws_on_hit: bool,
}

/// The keywords found in a rules text, matched case-insensitively (ASCII).
pub open spec fn keywords_of(text: Seq<char>) -> Keywords {
    let t = lower_seq(text);
    Keywords {
        go_again: contains_seq(t, "go again"@),
        dominate: contains_seq(t, "dominate"@),
        intimidate: contains_seq(t, "intimidate"@),
        overpower: contains_seq(t, "overpower"@),
        draws_on_hit: (contains_seq(t, "hits"@) && contains_seq(t, "draw a card"@))
            || contains_seq(t, "if this hits a hero, draw a card"@),
    }
}

/// `word` is spelled at position `k` of `text`, ignoring ASCII case: each of its
/// chars is the lower-cased char of `text` at the same offset from `k`.
pub open spec fn spelled_at(text: Seq<char>, word: Seq<char>, k: int) -> bool {
    &&& 0 <= k
    &&& k + word.len() <= text.len()
    &&& forall|j: int| 0 <= j < word.len() ==> lower_char(#[trigger] text[k + j]) == word[j]
}

proof fn lemma_found_lower(text: Seq<char>, word: Seq<char>)
    ensures
        contains_seq(lower_seq(text), word) <==> exists|k: int| spelled_at(text, word, k),
{
    let t = lower_seq(text);
    if contains_seq(t, word) {
        let i = choose|i: int| occurs_at(t, word, i);
        assert forall|j: int| 0 <= j < word.len() implies lower_char(#[trigger] text[i + j])
            == word[j] by {
            assert(t.subrange(i, i + word.len())[j] == word[j]);
        }
        assert(spelled_at(text, word, i));
    }
    if exists|k: int| spelled_at(text, word, k) {
        let k = choose|k: int| spelled_at(text, word, k);
        assert(t.subrange(k, k + word.len()) =~= word) by {
            assert forall|j: int| 0 <= j < word.len() implies t.subrange(k, k + word.len())[j]
                == word[j] by {
                assert(lower_char(text[k + j]) == word[j]);
            }
        }
        assert(occurs_at(t, word, k));
    }
}

/// What `Keywords::parse` finds: each keyword exactly when its words occur in the
/// text, ignoring ASCII case; an on-hit draw exactly when both "hits" and "draw a
/// card" occur.
pub proof fn law_keywords_found(text: Seq<char>)
    ensures
        keywords_of(text).go_again <==> exists|k: int| spelled_at(text, "go again"@, k),
        keywords_of(text).dominate <==> exists|k: int| spelled_at(text, "dominate"@, k),
        keywords_of(text).intimidate <==> exists|k: int| spelled_at(text, "intimidate"@, k),
        keywords_of(text).overpower <==> exists|k: int| spelled_at(text, "overpower"@, k),
        keywords_of(text).draws_on_hit <==> (exists|k: int| spelled_at(text, "hits"@, k)) && (
        exists|k: int| spelled_at(text, "draw a card"@, k)),
{
    lemma_found_lower(text, "go again"@);
    lemma_found_lower(text, "dominate"@);
    lemma_found_lower(text, "intimidate"@);
    lemma_found_lower(text, "overpower"@);
    lemma_found_lower(text, "hits"@);
    lemma_found_lower(text, "draw a card"@);
    let full = "if this hits a hero, draw a card"@;
    lemma_found_lower(text, full);
    if exists|k: int| spelled_at(text, full, k) {
        let k = choose|k: int| spelled_at(text, full, k);
        reveal_strlit("if this hits a hero, draw a card");
        reveal_strlit("hits");
        reveal_strlit("draw a card");
        assert forall|j: int| 0 <= j < "hits"@.len() implies lower_char(
            #[trigger] text[(k + 8) + j],
        ) == "hits"@[j] by {
            assert(lower_char(text[k + (8 + j)]) == full[8 + j]);
            assert((k + 8) + j == k + (8 + j));
        }
        assert(spelled_at(text, "hits"@, k + 8));
        assert forall|j: int| 0 <= j < "draw a card"@.len() implies lower_char(
            #[trigger] text[(k + 21) + j],
        ) == "draw a card"@[j] by {
            assert(lower_char(text[k + (21 + j)]) == full[21 + j]);
            assert((k + 21) + j == k + (21 + j));
        }
        assert(spelled_at(text, "draw a card"@, k + 21));
    }
}

impl Keywords {
    /// Detects keywords in rules text by (ASCII case-insensitive) substring match.
    pub fn parse(text: &str) -> (r: Self)
        ensures
            r == keywords_of(text@),
    {
        let raw = chars_of(text);
        let t = to_lower(&raw);
        let hits = contains_str(&t, "hits");
        let draw = contains_str(&t, "draw a card");
        let full = contains_str(&t, "if this hits a hero, draw a card");
        Keywords {
            go_again: contains_str(&t, "go again"),
            dominate: contains_str(&t, "dominate"),
            intimidate: contains_str(&t, "intimidate"),
            overpower: contains_str(&t, "overpower"),
            draws_on_hit: hits && draw || full,
        }
    }
}

/// A single card definition (one pitch variant = one card).
#[derive(Debug, Clone)]
pub struct Card {
    pub id: String,
    pub name: String,
    pub pitch_value: Option<u8>,
    pub cost: u8,
    pub power: Option<i32>,
    pub defense: i32,
    pub types: Vec<CardType>,
    pub subtypes: Vec<String>,
    pub classes: Vec<Class>,
    pub talents: Vec<Talent>,
    pub keywords: Keywords,
    pub text: String,
}

/// A card as plain values.
pub struct CardView {
    pub id: Seq<char>,
    pub name: Seq<char>,
    pub pitch_value: Option<u8>,
    pub cost: u8,
    pub power: Option<i32>,
    pub defense: i32,
    pub types: Seq<CardType>,
    pub subtypes: Seq<Seq<char>>,
    pub classes: Seq<Class>,
    pub talents: Seq<Talent>,
    pub keywords: Keywords,
    pub text: Seq<char>,
}

impl View for Card {
    type V = CardView;

    open spec fn view(&self) -> CardView {
        CardView {
            id: self.id@,
            name: self.name@,
            pitch_value: self.pitch_value,
            cost: self.cost,
            power: self.power,
            defense: self.defense,
            types: self.types@,
            subtypes: strs(self.subtypes@),
            classes: self.classes@,
            talents: self.talents@,
            keywords: self.keywords,
            text: self.text@,
        }
    }
}

/// Resources the card generates when pitched.
pub open spec fn card_pitch(c: CardView) -> u8 {
    pitch_resources(pitch_of_value(c.pitch_value))
}

/// An attack: it has the `Attack` subtype, or it is an action with a power value.
pub open spec fn card_is_attack(c: CardView) -> bool {
    c.subtypes.contains("Attack"@) || (c.types.contains(CardType::Action) && c.power is Some)
}

/// The first subtype that names an equipment slot.
pub open spec fn first_slot(subtypes: Seq<Seq<char>>) -> Option<EquipSlot>
    decreases subtypes.len(),
{
    if subtypes.len() == 0 {
        None
    } else {
        match slot_named(subtypes[0]) {
            Some(s) => Some(s),
            None => first_slot(subtypes.drop_first()),
        }
    }
}

/// The cost printed on a card record: a negative or unreadable cost counts as 0,
/// and the value is stored in a byte (`as u8`).
pub open spec fn cost_of(v: Option<i32>) -> u8 {
    match v {
        Some(x) => (if x < 0 {
            0
        } else {
            x
        }) as u8,
        None => 0,
    }
}

/// The card that one TSV record describes: fields are separated by tabs, at least
/// 11 of them (id, name, pitch, cost, power, defense, types, subtypes, classes,
/// talents, text), list fields separated by `|`.
pub open spec fn card_from_record(line: Seq<char>) -> Option<CardView> {
    let f = split_seq(line, '\t');
    if f.len() < 11 {
        None
    } else {
        Some(
            CardView {
                id: f[0],
                name: f[1],
                pitch_value: parse_u8_spec(f[2]),
                cost: cost_of(parse_i32_spec(f[3])),
                power: parse_i32_spec(f[4]),
                defense: match parse_i32_spec(f[5]) {
                    Some(d) => d,
                    None => 0,
                },
                types: list_items(f[6]).map_values(|s: Seq<char>| card_type_named(s)),
                subtypes: list_items(f[7]),
                classes: list_items(f[8]).map_values(|s: Seq<char>| class_named(s)),
                talents: list_items(f[9]).map_values(|s: Seq<char>| talent_named(s)),
                keywords: keywords_of(f[10]),
                text: f[10],
            },
        )
    }
}

/// The strings of the `|`-separated list in `chars[a..b]`.
fn list_strings(line: &str, chars: &Vec<char>, a: usize, b: usize) -> (r: Vec<String>)
    requires
        chars@ == line@,
        a <= b <= chars@.len(),
    ensures
        strs(r@) == list_items(chars@.subrange(a as int, b as int)),
{
    let mut out: Vec<String> = Vec::new();
    if a == b {
        assert(strs(out@) =~= Seq::<Seq<char>>::empty());
        return out;
    }
    let rs = split_ranges(chars, a, b, '|');
    let ghost parts = split_seq(chars@.subrange(a as int, b as int), '|');
    let mut k: usize = 0;
    while k < rs.len()
        invariant
            chars@ == line@,
            a <= b <= chars@.len(),
            ranges_match_split(chars@, a as int, b as int, rs@, '|'),
            parts == split_seq(chars@.subrange(a as int, b as int), '|'),
            k <= rs@.len(),
            strs(out@) == parts.take(k as int),
        decreases rs@.len() - k,
    {
        let (x, y) = rs[k];
        assert(rs@[k as int] == (x, y));
        let s = string_of_range(line, x, y);
        assert(s@ == parts[k as int]);
        let ghost prev = out@;
        out.push(s);
        assert(strs(out@) =~= strs(prev).push(parts[k as int]));
        assert(parts.take(k + 1) =~= parts.take(k as int).push(parts[k as int]));
        k = k + 1;
        assert(strs(out@) =~= parts.take(k as int));
    }
    assert(parts.take(k as int) =~= parts);
    out
}

fn types_of(items: &Vec<String>) -> (r: Vec<CardType>)
    ensures
        r@ == strs(items@).map_values(|s: Seq<char>| card_type_named(s)),
{
    let mut out: Vec<CardType> = Vec::new();
    let mut k: usize = 0;
    while k < items.len()
        invariant
            k <= items@.len(),
            out@ == strs(items@).take(k as int).map_values(|s: Seq<char>| card_type_named(s)),
        decreases items@.len() - k,
    {
        out.push(CardType::from_name(items[k].as_str()));
        k = k + 1;
        assert(out@ =~= strs(items@).take(k as int).map_values(
            |s: Seq<char>| card_type_named(s),
        ));
    }
    assert(strs(items@).take(k as int) =~= strs(items@));
    out
}

fn classes_of(items: &Vec<String>) -> (r: Vec<Class>)
    ensures
        r@ == strs(items@).map_values(|s: Seq<char>| class_named(s)),
{
    let mut out: Vec<Class> = Vec::new();
    let mut k: usize = 0;
    while k < items.len()
        invariant
            k <= items@.len(),
            out@ == strs(items@).take(k as int).map_values(|s: Seq<char>| class_named(s)),
        decreases items@.len() - k,
    {
        out.push(Class::from_name(items[k].as_str()));
        k = k + 1;
        assert(out@ =~= strs(items@).take(k as int).map_values(|s: Seq<char>| class_named(s)));
    }
    assert(strs(items@).take(k as int) =~= strs(items@));
    out
}

fn talents_of(items: &Vec<String>) -> (r: Vec<Talent>)
    ensures
        r@ == strs(items@).map_values(|s: Seq<char>| talent_named(s)),
{
    let mut out: Vec<Talent> = Vec::new();
    let mut k: usize = 0;
    while k < items.len()
        invariant
            k <= items@.len(),
            out@ == strs(items@).take(k as int).map_values(|s: Seq<char>| talent_named(s)),
        decreases items@.len() - k,
    {
        out.push(Talent::from_name(items[k].as_str()));
        k = k + 1;
        assert(out@ =~= strs(items@).take(k as int).map_values(|s: Seq<char>| talent_named(s)));
    }
    assert(strs(items@).take(k as int) =~= strs(items@));
    out
}

impl Card {
    /// A field-by-field copy.
    pub(crate) fn duplicate(&self) -> (r: Card)
        ensures
            r@ == self@,
    {
        let types = self.types.clone();
        let classes = self.classes.clone();
        let talents = self.talents.clone();
        let subtypes = self.subtypes.clone();
        assert(types@ =~= self.types@);
        assert(classes@ =~= self.classes@);
        assert(talents@ =~= self.talents@);
        assert(strs(subtypes@) =~= strs(self.subtypes@));
        Card {
            id: self.id.clone(),
            name: self.name.clone(),
            pitch_value: self.pitch_value,
            cost: self.cost,
            power: self.power,
            defense: self.defense,
            types,
            subtypes,
            classes,
            talents,
            keywords: self.keywords,
            text: self.text.clone(),
        }
    }

    pub fn pitch(&self) -> (r: Pitch)
        ensures
            r == pitch_of_value(self.pitch_value),
    {
        Pitch::from_value(self.pitch_value)
    }

    pub fn is_type(&self, t: CardType) -> (r: bool)
        ensures
            r == self.types@.contains(t),
    {
        let mut i: usize = 0;
        while i < self.types.len()
            invariant
                i <= self.types@.len(),
                forall|j: int| 0 <= j < i ==> self.types@[j] != t,
            decreases self.types@.len() - i,
        {
            if self.types[i] == t {
                return true;
            }
            i = i + 1;
        }
        false
    }

    pub fn is_attack(&self) -> (r: bool)
        ensures
            r == card_is_attack(self@),
    {
        let mut i: usize = 0;
        while i < self.subtypes.len()
            invariant
                i <= self.subtypes@.len(),
                forall|j: int| 0 <= j < i ==> self.subtypes@[j]@ != "Attack"@,
            decreases self.subtypes@.len() - i,
        {
            if str_eq(self.subtypes[i].as_str(), "Attack") {
                assert(strs(self.subtypes@)[i as int] == "Attack"@);
                return true;
            }
            i = i + 1;
        }
        assert(!strs(self.subtypes@).contains("Attack"@)) by {
            if strs(self.subtypes@).contains("Attack"@) {
                let j = choose|j: int|
                    0 <= j < strs(self.subtypes@).len() && strs(self.subtypes@)[j] == "Attack"@;
                assert(self.subtypes@[j]@ == "Attack"@);
            }
        }
        self.is_type(CardType::Action) && self.power.is_some()
    }

    pub fn is_hero(&self) -> (r: bool)
        ensures
            r == self.types@.contains(CardType::Hero),
    {
        self.is_type(CardType::Hero)
    }

    pub fn is_equipment(&self) -> (r: bool)
        ensures
            r == self.types@.contains(CardType::Equipment),
    {
        self.is_type(CardType::Equipment)
    }

    pub fn is_weapon(&self) -> (r: bool)
        ensures
            r == self.types@.contains(CardType::Weapon),
    {
        self.is_type(CardType::Weapon)
    }

    /// The slot named by the first subtype that names one.
    pub fn equip_slot(&self) -> (r: Option<EquipSlot>)
        ensures
            r == first_slot(self@.subtypes),
    {
        let ghost all = strs(self.subtypes@);
        assert(all.skip(0) =~= all);
        let mut i: usize = 0;
        while i < self.subtypes.len()
            invariant
                all == strs(self.subtypes@),
                i <= self.subtypes@.len(),
                first_slot(all) == first_slot(all.skip(i as int)),
            decreases self.subtypes@.len() - i,
        {
            let s = EquipSlot::from_subtype(self.subtypes[i].as_str());
            assert(all.skip(i as int)[0] == self.subtypes@[i as int]@);
            assert(all.skip(i as int).drop_first() =~= all.skip(i + 1));
            if s.is_some() {
                return s;
            }
            i = i + 1;
        }
        assert(all.skip(i as int) =~= Seq::<Seq<char>>::empty());
        None
    }

    pub fn has_talent(&self, t: Talent) -> (r: bool)
        ensures
            r == self.talents@.contains(t),
    {
        let mut i: usize = 0;
        while i < self.talents.len()
            invariant
                i <= self.talents@.len(),
                forall|j: int| 0 <= j < i ==> self.talents@[j] != t,
            decreases self.talents@.len() - i,
        {
            if self.talents[i] == t {
                return true;
            }
            i = i + 1;
        }
        false
    }

    pub fn has_class(&self, c: Class) -> (r: bool)
        ensures
            r == self.classes@.contains(c),
    {
        let mut i: usize = 0;
        while i < self.classes.len()
            invariant
                i <= self.classes@.len(),
                forall|j: int| 0 <= j < i ==> self.classes@[j] != c,
            decreases self.classes@.len() - i,
        {
            if self.classes[i] == c {
                return true;
            }
            i = i + 1;
        }
        false
    }

    /// Parses one TSV record (see `card_from_record`).
    pub fn from_tsv(line: &str) -> (r: Option<Self>)
        ensures
            match r {
                Some(c) => card_from_record(line@) == Some(c@),
                None => card_from_record(line@) is None,
            },
    {
        let chars = chars_of(line);
        let n = chars.len();
        let f = split_ranges(&chars, 0, n, '\t');
        let ghost fs = split_seq(line@, '\t');
        assert(chars@.subrange(0, n as int) =~= line@);
        if f.len() < 11 {
            return None;
        }
        assert(chars@.subrange(f@[0].0 as int, f@[0].1 as int) == fs[0]);
        assert(chars@.subrange(f@[1].0 as int, f@[1].1 as int) == fs[1]);
        assert(chars@.subrange(f@[2].0 as int, f@[2].1 as int) == fs[2]);
        assert(chars@.subrange(f@[3].0 as int, f@[3].1 as int) == fs[3]);
        assert(chars@.subrange(f@[4].0 as int, f@[4].1 as int) == fs[4]);
        assert(chars@.subrange(f@[5].0 as int, f@[5].1 as int) == fs[5]);
        assert(chars@.subrange(f@[6].0 as int, f@[6].1 as int) == fs[6]);
        assert(chars@.subrange(f@[7].0 as int, f@[7].1 as int) == fs[7]);
        assert(chars@.subrange(f@[8].0 as int, f@[8].1 as int) == fs[8]);
        assert(chars@.subrange(f@[9].0 as int, f@[9].1 as int) == fs[9]);
        assert(chars@.subrange(f@[10].0 as int, f@[10].1 as int) == fs[10]);
        let id = string_of_range(line, f[0].0, f[0].1);
        let name = string_of_range(line, f[1].0, f[1].1);
        let pitch_value = parse_u8_range(&chars, f[2].0, f[2].1);
        let cost_num = parse_i32_range(&chars, f[3].0, f[3].1);
        let cost: u8 = match cost_num {
            Some(x) => (if x < 0 {
                0
            } else {
                x
            }) as u8,
            None => 0,
        };
        let power = parse_i32_range(&chars, f[4].0, f[4].1);
        let defense = match parse_i32_range(&chars, f[5].0, f[5].1) {
            Some(d) => d,
            None => 0,
        };
        let type_names = list_strings(line, &chars, f[6].0, f[6].1);
        let subtypes = list_strings(line, &chars, f[7].0, f[7].1);
        let class_names = list_strings(line, &chars, f[8].0, f[8].1);
        let talent_names = list_strings(line, &chars, f[9].0, f[9].1);
        let text = string_of_range(line, f[10].0, f[10].1);
        let keywords = Keywords::parse(text.as_str());
        let card = Card {
            id,
            name,
            pitch_value,
            cost,
            power,
            defense,
            types: types_of(&type_names),
            subtypes,
            classes: classes_of(&class_names),
            talents: talents_of(&talent_names),
            keywords,
            text,
        };
        assert(card@ == card_from_record(line@).unwrap());
        Some(card)
    }
}

} // verus!

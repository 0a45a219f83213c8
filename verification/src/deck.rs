//! Deck model: a sample Aurora deck built from the card pool, and the passive
//! combat-dummy target.

use crate::card::{card_is_attack, first_slot, strs, Card, CardView};
use crate::db::{ids_with_type, CardDb};
use crate::text::{chars_of, sort_texts, text_le, text_order, views_of};
use crate::types::{CardType, EquipSlot};
use vstd::prelude::*;

verus! {

/// The least text of `s` in text order.
pub open spec fn least_text(s: Seq<Seq<char>>) -> Option<Seq<char>>
    decreases s.len(),
{
    if s.len() == 0 {
        None
    } else {
        match least_text(s.drop_last()) {
            None => Some(s.last()),
            Some(m) => Some(
                if text_le(m, s.last()) {
                    m
                } else {
                    s.last()
                },
            ),
        }
    }
}

/// The identifiers, in database order, of the equipment cards for `slot`.
pub open spec fn slot_ids(db: Seq<CardView>, slot: EquipSlot, n: int) -> Seq<Seq<char>>
    decreases n,
{
    if n <= 0 {
        Seq::empty()
    } else {
        let r = slot_ids(db, slot, n - 1);
        let c = db[n - 1];
        if c.types.contains(CardType::Equipment) && first_slot(c.subtypes) == Some(slot) {
            r.push(c.id)
        } else {
            r
        }
    }
}

/// A card counts as a sample-deck attack when it is an attack with positive power.
pub open spec fn sample_attack(c: CardView) -> bool {
    card_is_attack(c) && match c.power {
        Some(p) => p > 0,
        None => false,
    }
}

/// The identifiers, in database order, of the sample-deck attacks.
pub open spec fn attack_ids(db: Seq<CardView>, n: int) -> Seq<Seq<char>>
    decreases n,
{
    if n <= 0 {
        Seq::empty()
    } else {
        let r = attack_ids(db, n - 1);
        if sample_attack(db[n - 1]) {
            r.push(db[n - 1].id)
        } else {
            r
        }
    }
}

pub open spec fn opt_seq(o: Option<Seq<char>>) -> Seq<Seq<char>> {
    match o {
        Some(x) => seq![x],
        None => Seq::empty(),
    }
}

/// One equipment card per slot (head, chest, arms, legs): the least identifier
/// for that slot, when the pool has one.
pub open spec fn sample_equipment(db: Seq<CardView>) -> Seq<Seq<char>> {
    opt_seq(least_text(slot_ids(db, EquipSlot::Head, db.len() as int))) + opt_seq(
        least_text(slot_ids(db, EquipSlot::Chest, db.len() as int)),
    ) + opt_seq(least_text(slot_ids(db, EquipSlot::Arms, db.len() as int))) + opt_seq(
        least_text(slot_ids(db, EquipSlot::Legs, db.len() as int)),
    )
}

/// The weapon of the sample deck: the least weapon identifier, if any.
pub open spec fn sample_weapon(db: Seq<CardView>) -> Option<Seq<char>> {
    let w = ids_with_type(db, CardType::Weapon, db.len() as int).sort_by(text_order());
    if w.len() == 0 {
        None
    } else {
        Some(w[0])
    }
}

/// The 60 main-deck cards: the attacks in text order, cycled.
pub open spec fn sample_cards(db: Seq<CardView>) -> Seq<Seq<char>> {
    let a = attack_ids(db, db.len() as int).sort_by(text_order());
    if a.len() == 0 {
        Seq::empty()
    } else {
        Seq::new(60, |i: int| a[i % (a.len() as int)])
    }
}

/// The sample deck's main deck holds 60 cards, or none when the pool has no
/// attack with positive power.
pub proof fn law_sample_deck_size(db: Seq<CardView>)
    ensures
        sample_cards(db).len() == if attack_ids(db, db.len() as int).len() == 0 {
            0nat
        } else {
            60nat
        },
{
    let a = attack_ids(db, db.len() as int);
    crate::text::lemma_text_order_total();
    a.lemma_sort_by_ensures(text_order());
    broadcast use vstd::seq_lib::group_to_multiset_ensures;

    assert(a.to_multiset().len() == a.len());
    assert(a.sort_by(text_order()).to_multiset().len() == a.sort_by(text_order()).len());
    assert(a.sort_by(text_order()).len() == a.len());
}

/// A complete registered deck: hero, equipment, weapon, and the main deck.
#[derive(Debug, Clone)]
pub struct Deck {
    pub hero: String,
    pub life: i32,
    pub intellect: u8,
    pub weapon: Option<String>,
    pub equipment: Vec<String>,
    pub cards: Vec<String>,
}

pub open spec fn opt_view(o: Option<String>) -> Option<Seq<char>> {
    match o {
        Some(s) => Some(s@),
        None => None,
    }
}

/// The least identifier of an equipment card for `slot`.
fn least_for_slot(db: &CardDb, slot: EquipSlot) -> (r: Option<String>)
    ensures
        opt_view(r) == least_text(slot_ids(db@, slot, db@.len() as int)),
{
    let cards = db.iter();
    let ghost v = cards@.map_values(|c: Card| c@);
    let mut best: Option<String> = None;
    let mut best_key: Vec<char> = Vec::new();
    let mut i: usize = 0;
    while i < cards.len()
        invariant
            v == cards@.map_values(|c: Card| c@),
            v == db@,
            i <= cards@.len(),
            opt_view(best) == least_text(slot_ids(v, slot, i as int)),
            best is Some ==> best_key@ == best->0@,
        decreases cards@.len() - i,
    {
        let c = &cards[i];
        assert(v[i as int] == c@);
        let ghost prev = slot_ids(v, slot, i as int);
        let pick = c.is_equipment() && match c.equip_slot() {
            Some(s) => s == slot,
            None => false,
        };
        if pick {
            let key = chars_of(c.id.as_str());
            assert(slot_ids(v, slot, i + 1) == prev.push(c.id@));
            assert(slot_ids(v, slot, i + 1).drop_last() =~= prev);
            let replace = match &best {
                None => true,
                Some(_) => !crate::text::chars_le(&best_key, &key),
            };
            if replace {
                best = Some(c.id.clone());
                best_key = key;
            }
        }
        i = i + 1;
    }
    best
}

fn main_deck_cards(db: &CardDb) -> (r: Vec<String>)
    ensures
        strs(r@) == sample_cards(db@),
{
    let cards = db.iter();
    let ghost v = cards@.map_values(|c: Card| c@);
    let mut ids: Vec<&str> = Vec::new();
    let mut keys: Vec<Vec<char>> = Vec::new();
    let mut i: usize = 0;
    while i < cards.len()
        invariant
            v == cards@.map_values(|c: Card| c@),
            v == db@,
            i <= cards@.len(),
            keys@.len() == ids@.len(),
            forall|j: int| 0 <= j < keys@.len() ==> (#[trigger] keys@[j])@ == ids@[j]@,
            views_of(ids@) == attack_ids(v, i as int),
        decreases cards@.len() - i,
    {
        let c = &cards[i];
        assert(v[i as int] == c@);
        let positive = match c.power {
            Some(p) => p > 0,
            None => false,
        };
        if c.is_attack() && positive {
            let id = c.id.as_str();
            keys.push(chars_of(id));
            ids.push(id);
        }
        assert(views_of(ids@) =~= attack_ids(v, i + 1));
        i = i + 1;
    }
    let attacks = sort_texts(ids, keys);
    let ghost a = attack_ids(v, v.len() as int).sort_by(text_order());
    let mut out: Vec<String> = Vec::new();
    let n = attacks.len();
    if n == 0 {
        assert(strs(out@) =~= sample_cards(db@));
        return out;
    }
    let mut k: usize = 0;
    while k < 60
        invariant
            views_of(attacks@) == a,
            n == attacks@.len(),
            n > 0,
            k <= 60,
            strs(out@) == Seq::new(k as nat, |t: int| a[t % (n as int)]),
        decreases 60 - k,
    {
        let s = String::from_str(attacks[k % n]);
        assert(s@ == a[(k % n) as int]);
        let ghost sv = s@;
        let ghost prev = strs(out@);
        out.push(s);
        assert(strs(out@) =~= prev.push(sv));
        k = k + 1;
        assert(strs(out@) =~= Seq::new(k as nat, |t: int| a[t % (n as int)]));
    }
    out
}

/// A deck as `Deck::aurora_with_cards` makes it for the main deck `cards`.
pub open spec fn is_aurora_deck(db: Seq<CardView>, cards: Seq<Seq<char>>, d: Deck) -> bool {
    &&& d.hero@ == "aurora-legacy-of-tempest"@
    &&& d.life == 40
    &&& d.intellect == 4
    &&& opt_view(d.weapon) == sample_weapon(db)
    &&& strs(d.equipment@) == sample_equipment(db)
    &&& strs(d.cards@) == cards
}

/// A deck as `Deck::combat_dummy` makes it.
pub open spec fn is_dummy_deck(d: Deck, life: i32) -> bool {
    &&& d.hero@ == "combat-dummy"@
    &&& d.life == life
    &&& d.intellect == 0
    &&& d.weapon is None
    &&& d.equipment@.len() == 0
    &&& d.cards@.len() == 0
}

/// Two decks that a game cannot tell apart: the same hero, life, intellect,
/// weapon, equipment and cards.
pub open spec fn same_deck(a: Deck, b: Deck) -> bool {
    &&& a.hero == b.hero
    &&& a.life == b.life
    &&& a.intellect == b.intellect
    &&& a.weapon == b.weapon
    &&& a.equipment@ == b.equipment@
    &&& a.cards@ == b.cards@
}

fn copy_strings(v: &Vec<String>) -> (r: Vec<String>)
    ensures
        r@ == v@,
{
    let mut out: Vec<String> = Vec::new();
    let mut i: usize = 0;
    while i < v.len()
        invariant
            i <= v@.len(),
            out@ == v@.take(i as int),
        decreases v@.len() - i,
    {
        out.push(v[i].clone());
        assert(out@ =~= v@.take(i + 1));
        i = i + 1;
    }
    assert(v@.take(i as int) =~= v@);
    out
}

impl Deck {
    /// A copy that no game can tell from this deck.
    pub fn duplicate(&self) -> (r: Self)
        ensures
            same_deck(r, *self),
    {
        let weapon = match &self.weapon {
            Some(w) => Some(w.clone()),
            None => None,
        };
        Deck {
            hero: self.hero.clone(),
            life: self.life,
            intellect: self.intellect,
            weapon,
            equipment: copy_strings(&self.equipment),
            cards: copy_strings(&self.cards),
        }
    }

    /// A runnable (not optimised) Aurora, Legacy of Tempest deck built from the
    /// pool: hero, weapon, one equipment per slot, and 60 attack cards.
    pub fn aurora_sample(db: &CardDb) -> (r: Self)
        ensures
            r.hero@ == "aurora-legacy-of-tempest"@,
            r.life == 40,
            r.intellect == 4,
            opt_view(r.weapon) == sample_weapon(db@),
            strs(r.equipment@) == sample_equipment(db@),
            strs(r.cards@) == sample_cards(db@),
    {
        let cards = main_deck_cards(db);
        Self::aurora_with_cards(db, cards)
    }

    /// The Aurora deck shell (hero, weapon, equipment, life 40, intellect 4)
    /// around the given main deck.
    pub fn aurora_with_cards(db: &CardDb, cards: Vec<String>) -> (r: Self)
        ensures
            r.hero@ == "aurora-legacy-of-tempest"@,
            r.life == 40,
            r.intellect == 4,
            opt_view(r.weapon) == sample_weapon(db@),
            strs(r.equipment@) == sample_equipment(db@),
            r.cards == cards,
    {
        let weapons = db.ids_of_type(CardType::Weapon);
        let weapon = if weapons.len() > 0 {
            Some(String::from_str(weapons[0]))
        } else {
            None
        };
        let mut equipment: Vec<String> = Vec::new();
        let head = least_for_slot(db, EquipSlot::Head);
        let chest = least_for_slot(db, EquipSlot::Chest);
        let arms = least_for_slot(db, EquipSlot::Arms);
        let legs = least_for_slot(db, EquipSlot::Legs);
        let ghost e0 = strs(equipment@);
        match head {
            Some(x) => equipment.push(x),
            None => {},
        }
        let ghost e1 = strs(equipment@);
        assert(e1 =~= e0 + opt_seq(least_text(slot_ids(db@, EquipSlot::Head, db@.len() as int))));
        match chest {
            Some(x) => equipment.push(x),
            None => {},
        }
        let ghost e2 = strs(equipment@);
        assert(e2 =~= e1 + opt_seq(least_text(slot_ids(db@, EquipSlot::Chest, db@.len() as int))));
        match arms {
            Some(x) => equipment.push(x),
            None => {},
        }
        let ghost e3 = strs(equipment@);
        assert(e3 =~= e2 + opt_seq(least_text(slot_ids(db@, EquipSlot::Arms, db@.len() as int))));
        match legs {
            Some(x) => equipment.push(x),
            None => {},
        }
        let ghost e4 = strs(equipment@);
        assert(e4 =~= e3 + opt_seq(least_text(slot_ids(db@, EquipSlot::Legs, db@.len() as int))));
        assert(e4 =~= sample_equipment(db@));
        Deck {
            hero: String::from_str("aurora-legacy-of-tempest"),
            life: 40,
            intellect: 4,
            weapon,
            equipment,
            cards,
        }
    }

    /// The passive "Combat Dummy": a fixed-life target that never acts. Good for
    /// measuring goldfish (kill-speed) only.
    pub fn combat_dummy(life: i32) -> (r: Self)
        ensures
            r.hero@ == "combat-dummy"@,
            r.life == life,
            r.intellect == 0,
            r.weapon is None,
            r.equipment@.len() == 0,
            r.cards@.len() == 0,
    {
        Deck {
            hero: String::from_str("combat-dummy"),
            life,
            intellect: 0,
            weapon: None,
            equipment: Vec::new(),
            cards: Vec::new(),
        }
    }
}

} // verus!

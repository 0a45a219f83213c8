use fab::{CardDb, CardType, Class, EquipSlot, Keywords, Pitch, Talent};
use fab::card::Card;
use std::str::FromStr;

#[test]
fn aurora_hero_present_and_correct() {
    let db = CardDb::load();
    let hero = db.get("aurora-legacy-of-tempest").expect("Aurora hero");
    assert!(hero.is_hero());
    assert!(hero.has_class(Class::Runeblade));
    assert!(hero.has_talent(Talent::Lightning));
}

#[test]
fn stormshard_is_lightning_instant() {
    let db = CardDb::load();
    let c = db.get("stormshard-red").expect("Stormshard");
    assert!(c.has_talent(Talent::Lightning));
    assert_eq!(c.pitch(), Pitch::Red);
}

#[test]
fn attacks_have_power_and_pitch() {
    let db = CardDb::load();
    let c = db.get("adrenaline-rush-red").expect("Adrenaline Rush");
    assert!(c.is_attack());
    assert_eq!(c.power, Some(4));
    assert_eq!(c.pitch().value(), 1);
}

#[test]
fn tsv_export_loads_a_full_pool() {
    let mut text = String::new();
    for i in 0..1024 {
        text.push_str(&format!("card-{i:04}-red\tCard {i}\t1\t0\t3\t2\tAction\tAttack\tRuneblade\tLightning\t\n"));
    }
    let db = CardDb::from_tsv_text(&text);
    assert!(db.len() > 900, "pool has {} cards", db.len());
    assert!(db.get("card-1023-red").is_some());
}

#[test]
fn embedded_sample_loads_every_record() {
    // The crate embeds a sample of the Aurora records, not the whole pool.
    let db = CardDb::load();
    assert_eq!(db.len(), 5);
    assert!(!db.is_empty());
    assert!(db.get("no-such-card").is_none());
}

#[test]
fn record_fields_are_parsed() {
    let line = "test-card\tTest Card\t3\t-2\tx\t5\tAction|Weird\tAttack|Head\tRuneblade|Nope\tLightning\tGo Again. If this hits, draw a card.";
    let c = Card::from_tsv(line).expect("record");
    assert_eq!(c.id, "test-card");
    assert_eq!(c.name, "Test Card");
    assert_eq!(c.pitch_value, Some(3));
    assert_eq!(c.cost, 0);
    assert_eq!(c.power, None);
    assert_eq!(c.defense, 5);
    assert_eq!(c.types, vec![CardType::Action, CardType::Other]);
    assert_eq!(c.subtypes, vec!["Attack".to_string(), "Head".to_string()]);
    assert_eq!(c.classes, vec![Class::Runeblade, Class::Other]);
    assert_eq!(c.talents, vec![Talent::Lightning]);
    assert!(c.keywords.go_again);
    assert!(c.keywords.draws_on_hit);
    assert!(!c.keywords.dominate);
    assert_eq!(c.pitch(), Pitch::Blue);
    assert_eq!(c.equip_slot(), Some(EquipSlot::Head));
    assert!(c.is_attack());
}

#[test]
fn short_record_is_rejected() {
    assert!(Card::from_tsv("a\tb\tc").is_none());
}

#[test]
fn cost_is_stored_in_a_byte() {
    let c = Card::from_tsv("x\tX\t\t300\t\t\t\t\t\t\t").expect("record");
    assert_eq!(c.cost, 44);
    assert_eq!(c.pitch_value, None);
    assert_eq!(c.pitch(), Pitch::NoPitch);
    assert_eq!(c.pitch().value(), 0);
}

#[test]
fn keywords_are_case_insensitive() {
    let k = Keywords::parse("DOMINATE. Overpower. Intimidate");
    assert!(k.dominate && k.overpower && k.intimidate);
    assert!(!k.go_again && !k.draws_on_hit);
    let k2 = Keywords::parse("If this hits a hero, draw a card");
    assert!(k2.draws_on_hit);
}

#[test]
fn later_record_replaces_earlier() {
    let db = CardDb::from_tsv_text("a\tFirst\t1\t0\t1\t1\tAction\t\t\t\t\n\n  \t\na\tSecond\t2\t0\t1\t1\tAction\t\t\t\t\r\nb\tB\t\t\t\t\tWeapon\t\t\t\t");
    assert_eq!(db.len(), 2);
    assert_eq!(db.get("a").unwrap().name, "Second");
    assert_eq!(db.ids_of_type(CardType::Action), vec!["a"]);
    assert_eq!(db.ids_of_type(CardType::Weapon), vec!["b"]);
}

#[test]
fn ids_of_type_are_sorted() {
    let db = CardDb::from_tsv_text("z\tZ\t\t\t\t\tAction\t\t\t\t\nb\tB\t\t\t\t\tAction\t\t\t\t\nm\tM\t\t\t\t\tAction\t\t\t\t\n");
    assert_eq!(db.ids_of_type(CardType::Action), vec!["b", "m", "z"]);
    assert!(db.ids_of_type(CardType::Hero).is_empty());
}

#[test]
fn pitch_values_roundtrip() {
    assert_eq!(Pitch::from_value(Some(1)).value(), 1);
    assert_eq!(Pitch::from_value(Some(2)).value(), 2);
    assert_eq!(Pitch::from_value(Some(3)).value(), 3);
    assert_eq!(Pitch::from_value(Some(4)).value(), 0);
    assert_eq!(Pitch::from_value(None), Pitch::NoPitch);
}

#[test]
fn names_parse_to_enums() {
    assert_eq!(CardType::from_str("Attack Reaction"), Ok(CardType::AttackReaction));
    assert_eq!(CardType::from_str("Demi-Hero"), Ok(CardType::DemiHero));
    assert_eq!(Class::from_str("Ninja"), Ok(Class::Ninja));
    assert_eq!(Talent::from_str("Shadow"), Ok(Talent::Shadow));
    assert_eq!(Talent::from_str("shadow"), Ok(Talent::Other));
    assert_eq!(EquipSlot::from_subtype("Legs"), Some(EquipSlot::Legs));
    assert_eq!(EquipSlot::from_subtype("Weapon"), None);
}

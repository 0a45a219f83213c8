//! Core card enums: super-types, classes, talents, equipment slots and pitch.

use crate::text::str_eq;
use std::str::FromStr;
use vstd::prelude::*;

verus! {

/// Card super-type.
#[derive(Debug, Clone, Copy, PartialEq, Eq, Hash, Structural)]
pub enum CardType {
    Action,
    AttackReaction,
    Block,
    Companion,
    DefenseReaction,
    DemiHero,
    Equipment,
    Hero,
    Instant,
    Macro,
    Mentor,
    Resource,
    Token,
    Weapon,
    Other,
}

/// The card type named by `s`; unknown names are `Other`.
pub open spec fn card_type_named(s: Seq<char>) -> CardType {
    if s == "Action"@ {
        CardType::Action
    } else if s == "Attack Reaction"@ || s == "AttackReaction"@ {
        CardType::AttackReaction
    } else if s == "Block"@ {
        CardType::Block
    } else if s == "Companion"@ {
        CardType::Companion
    } else if s == "Defense Reaction"@ || s == "DefenseReaction"@ {
        CardType::DefenseReaction
    } else if s == "Demi-Hero"@ || s == "DemiHero"@ {
        CardType::DemiHero
    } else if s == "Equipment"@ {
        CardType::Equipment
    } else if s == "Hero"@ {
        CardType::Hero
    } else if s == "Instant"@ {
        CardType::Instant
    } else if s == "Macro"@ {
        CardType::Macro
    } else if s == "Mentor"@ {
        CardType::Mentor
    } else if s == "Resource"@ {
        CardType::Resource
    } else if s == "Token"@ {
        CardType::Token
    } else if s == "Weapon"@ {
        CardType::Weapon
    } else {
        CardType::Other
    }
}

impl CardType {
    /// Reads a card type name; anything unknown is `Other`.
    pub fn from_name(s: &str) -> (r: CardType)
        ensures
            r == card_type_named(s@),
    {
        if str_eq(s, "Action") {
            CardType::Action
        } else if str_eq(s, "Attack Reaction") || str_eq(s, "AttackReaction") {
            CardType::AttackReaction
        } else if str_eq(s, "Block") {
            CardType::Block
        } else if str_eq(s, "Companion") {
            CardType::Companion
        } else if str_eq(s, "Defense Reaction") || str_eq(s, "DefenseReaction") {
            CardType::DefenseReaction
        } else if str_eq(s, "Demi-Hero") || str_eq(s, "DemiHero") {
            CardType::DemiHero
        } else if str_eq(s, "Equipment") {
            CardType::Equipment
        } else if str_eq(s, "Hero") {
            CardType::Hero
        } else if str_eq(s, "Instant") {
            CardType::Instant
        } else if str_eq(s, "Macro") {
            CardType::Macro
        } else if str_eq(s, "Mentor") {
            CardType::Mentor
        } else if str_eq(s, "Resource") {
            CardType::Resource
        } else if str_eq(s, "Token") {
            CardType::Token
        } else if str_eq(s, "Weapon") {
            CardType::Weapon
        } else {
            CardType::Other
        }
    }
}

impl FromStr for CardType {
    type Err = ();

    fn from_str(s: &str) -> (r: Result<Self, ()>)
        ensures
            r == Ok::<CardType, ()>(card_type_named(s@)),
    {
        Ok(CardType::from_name(s))
    }
}

/// Hero / card class.
#[derive(Debug, Clone, Copy, PartialEq, Eq, Hash, Structural)]
pub enum Class {
    Generic,
    NotClassed,
    Runeblade,
    Wizard,
    Warrior,
    Brute,
    Guardian,
    Ninja,
    Other,
}

/// The class named by `s`; unknown names are `Other`.
pub open spec fn class_named(s: Seq<char>) -> Class {
    if s == "Generic"@ {
        Class::Generic
    } else if s == "NotClassed"@ {
        Class::NotClassed
    } else if s == "Runeblade"@ {
        Class::Runeblade
    } else if s == "Wizard"@ {
        Class::Wizard
    } else if s == "Warrior"@ {
        Class::Warrior
    } else if s == "Brute"@ {
        Class::Brute
    } else if s == "Guardian"@ {
        Class::Guardian
    } else if s == "Ninja"@ {
        Class::Ninja
    } else {
        Class::Other
    }
}

impl Class {
    /// Reads a class name; anything unknown is `Other`.
    pub fn from_name(s: &str) -> (r: Class)
        ensures
            r == class_named(s@),
    {
        if str_eq(s, "Generic") {
            Class::Generic
        } else if str_eq(s, "NotClassed") {
            Class::NotClassed
        } else if str_eq(s, "Runeblade") {
            Class::Runeblade
        } else if str_eq(s, "Wizard") {
            Class::Wizard
        } else if str_eq(s, "Warrior") {
            Class::Warrior
        } else if str_eq(s, "Brute") {
            Class::Brute
        } else if str_eq(s, "Guardian") {
            Class::Guardian
        } else if str_eq(s, "Ninja") {
            Class::Ninja
        } else {
            Class::Other
        }
    }
}

impl FromStr for Class {
    type Err = ();

    fn from_str(s: &str) -> (r: Result<Self, ()>)
        ensures
            r == Ok::<Class, ()>(class_named(s@)),
    {
        Ok(Class::from_name(s))
    }
}

/// Card talent (e.g. Aurora is Lightning).
#[derive(Debug, Clone, Copy, PartialEq, Eq, Hash, Structural)]
pub enum Talent {
    Lightning,
    Elemental,
    Ice,
    Earth,
    Light,
    Shadow,
    Other,
}

/// The talent named by `s`; unknown names are `Other`.
pub open spec fn talent_named(s: Seq<char>) -> Talent {
    if s == "Lightning"@ {
        Talent::Lightning
    } else if s == "Elemental"@ {
        Talent::Elemental
    } else if s == "Ice"@ {
        Talent::Ice
    } else if s == "Earth"@ {
        Talent::Earth
    } else if s == "Light"@ {
        Talent::Light
    } else if s == "Shadow"@ {
        Talent::Shadow
    } else {
        Talent::Other
    }
}

impl Talent {
    /// Reads a talent name; anything unknown is `Other`.
    pub fn from_name(s: &str) -> (r: Talent)
        ensures
            r == talent_named(s@),
    {
        if str_eq(s, "Lightning") {
            Talent::Lightning
        } else if str_eq(s, "Elemental") {
            Talent::Elemental
        } else if str_eq(s, "Ice") {
            Talent::Ice
        } else if str_eq(s, "Earth") {
            Talent::Earth
        } else if str_eq(s, "Light") {
            Talent::Light
        } else if str_eq(s, "Shadow") {
            Talent::Shadow
        } else {
            Talent::Other
        }
    }
}

impl FromStr for Talent {
    type Err = ();

    fn from_str(s: &str) -> (r: Result<Self, ()>)
        ensures
            r == Ok::<Talent, ()>(talent_named(s@)),
    {
        Ok(Talent::from_name(s))
    }
}

/// Equipment slot, derived from subtypes.
#[derive(Debug, Clone, Copy, PartialEq, Eq, Hash, Structural)]
pub enum EquipSlot {
    Head,
    Chest,
    Arms,
    Legs,
}

/// The equipment slot that a subtype names, if it names one.
pub open spec fn slot_named(s: Seq<char>) -> Option<EquipSlot> {
    if s == "Head"@ {
        Some(EquipSlot::Head)
    } else if s == "Chest"@ {
        Some(EquipSlot::Chest)
    } else if s == "Arms"@ {
        Some(EquipSlot::Arms)
    } else if s == "Legs"@ {
        Some(EquipSlot::Legs)
    } else {
        None
    }
}

impl EquipSlot {
    pub fn from_subtype(s: &str) -> (r: Option<Self>)
        ensures
            r == slot_named(s@),
    {
        if str_eq(s, "Head") {
            Some(EquipSlot::Head)
        } else if str_eq(s, "Chest") {
            Some(EquipSlot::Chest)
        } else if str_eq(s, "Arms") {
            Some(EquipSlot::Arms)
        } else if str_eq(s, "Legs") {
            Some(EquipSlot::Legs)
        } else {
            None
        }
    }
}

/// Pitch colour, by the dotted value on the card.
#[derive(Debug, Clone, Copy, PartialEq, Eq, Hash, Structural)]
pub enum Pitch {
    Red,
    Yellow,
    Blue,
    NoPitch,
}

/// The colour of a printed pitch value: 1 red, 2 yellow, 3 blue, otherwise none.
pub open spec fn pitch_of_value(v: Option<u8>) -> Pitch {
    match v {
        Some(1) => Pitch::Red,
        Some(2) => Pitch::Yellow,
        Some(3) => Pitch::Blue,
        _ => Pitch::NoPitch,
    }
}

/// Resources a pitch colour generates.
pub open spec fn pitch_resources(p: Pitch) -> u8 {
    match p {
        Pitch::Red => 1,
        Pitch::Yellow => 2,
        Pitch::Blue => 3,
        Pitch::NoPitch => 0,
    }
}

impl Pitch {
    pub fn from_value(v: Option<u8>) -> (r: Self)
        ensures
            r == pitch_of_value(v),
    {
        match v {
            Some(1) => Self::Red,
            Some(2) => Self::Yellow,
            Some(3) => Self::Blue,
            _ => Self::NoPitch,
        }
    }

    /// Resources generated when pitched.
    pub fn value(self) -> (r: u8)
        ensures
            r == pitch_resources(self),
            r <= 3,
    {
        match self {
            Self::Red => 1,
            Self::Yellow => 2,
            Self::Blue => 3,
            Self::NoPitch => 0,
        }
    }
}

/// A printed pitch value of 1, 2 or 3 is what its colour generates when pitched;
/// any other value generates nothing.
pub proof fn law_pitch_value_roundtrip(v: Option<u8>)
    ensures
        (v == Some(1u8) || v == Some(2u8) || v == Some(3u8)) ==> pitch_resources(
            pitch_of_value(v),
        ) == v.unwrap(),
        !(v == Some(1u8) || v == Some(2u8) || v == Some(3u8)) ==> pitch_resources(
            pitch_of_value(v),
        ) == 0,
{
}

} // verus!

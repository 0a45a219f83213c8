//! A simplified but self-consistent Flesh and Blood rules engine.
//!
//! Scope (a faithful *subset*, not a full reimplementation): turn structure, the
//! single action point + `go again`, pitching cards to pay costs, attacks vs.
//! blocks on a one-link combat step, `dominate`, on-hit draw, hand refill to
//! intellect, and life/fatigue loss conditions. Arcane damage, triggered layers,
//! reactions and most card-specific text are not modelled.
//!
//! Every step of the engine is stated as a function of the game's plain-value
//! model (`GameModel`) and of the agents' own stated decisions, so a game is
//! fully determined by its decks, its seed and its agents.

use crate::card::{card_is_attack, card_pitch, strs, Card, CardView};
use crate::db::{lookup, CardDb};
use crate::deck::Deck;
use crate::rng::{rng_shuffle, Rng};
use crate::types::CardType;
use std::collections::VecDeque;
use vstd::multiset::Multiset;
use vstd::prelude::*;

verus! {

/// An action a player can take during their action phase.
#[derive(Debug, Clone, Copy, PartialEq, Eq, Structural)]
pub enum Action {
    /// Play the hand card at this index.
    Play(usize),
    EndTurn,
}

#[derive(Debug, Clone, Copy, PartialEq, Eq, Structural)]
pub enum Outcome {
    Win(usize),
    Draw,
}

/// One player's board state.
#[derive(Debug, Clone)]
pub struct PlayerState {
    pub hero: String,
    pub life: i32,
    pub intellect: u8,
    pub deck: VecDeque<String>,
    pub hand: Vec<String>,
    pub arsenal: Option<String>,
    pub pitch: Vec<String>,
    pub graveyard: Vec<String>,
    pub equipment: Vec<String>,
    pub weapon: Option<String>,
    pub action_points: u8,
}

/// One player's board state as plain values.
#[verifier::ext_equal]
pub struct PlayerModel {
    pub hero: String,
    pub life: i32,
    pub intellect: u8,
    pub deck: Seq<String>,
    pub hand: Seq<String>,
    pub arsenal: Option<String>,
    pub pitch: Seq<String>,
    pub graveyard: Seq<String>,
    pub equipment: Seq<String>,
    pub weapon: Option<String>,
    pub action_points: u8,
}

impl View for PlayerState {
    type V = PlayerModel;

    open spec fn view(&self) -> PlayerModel {
        PlayerModel {
            hero: self.hero,
            life: self.life,
            intellect: self.intellect,
            deck: self.deck@,
            hand: self.hand@,
            arsenal: self.arsenal,
            pitch: self.pitch@,
            graveyard: self.graveyard@,
            equipment: self.equipment@,
            weapon: self.weapon,
            action_points: self.action_points,
        }
    }
}

/// The whole game as plain values.
#[verifier::ext_equal]
pub struct GameModel {
    pub db: Seq<CardView>,
    pub players: Seq<PlayerModel>,
    pub active: usize,
    pub turn: u32,
    pub max_turns: u32,
    pub log: Seq<Seq<char>>,
    pub verbose: bool,
}

// ---------------------------------------------------------------------------
// Plain-value rules
// ---------------------------------------------------------------------------

pub open spec fn set_player(g: GameModel, p: usize, pl: PlayerModel) -> GameModel {
    GameModel { players: g.players.update(p as int, pl), ..g }
}

pub open spec fn add_log(g: GameModel, line: Seq<char>) -> GameModel {
    GameModel { log: g.log.push(line), ..g }
}

/// A player is out of cards: nothing in deck, hand or arsenal.
pub open spec fn exhausted(pl: PlayerModel) -> bool {
    pl.deck.len() == 0 && pl.hand.len() == 0 && pl.arsenal is None
}

/// A passive target: intellect 0 and out of cards. It never takes a turn.
pub open spec fn passive_out(pl: PlayerModel) -> bool {
    pl.intellect == 0 && exhausted(pl)
}

/// The winner, once a hero is at 0 life or below.
pub open spec fn winner(g: GameModel) -> Option<Outcome> {
    let l0 = g.players[0].life <= 0;
    let l1 = g.players[1].life <= 0;
    if l0 && l1 {
        Some(Outcome::Draw)
    } else if l1 {
        Some(Outcome::Win(0))
    } else if l0 {
        Some(Outcome::Win(1))
    } else {
        None
    }
}

/// Resources a card identifier generates when pitched (0 for an unknown card).
pub open spec fn pitch_of(db: Seq<CardView>, id: String) -> int {
    match lookup(db, id@) {
        Some(c) => card_pitch(c) as int,
        None => 0,
    }
}

/// Defense of a card identifier (0 for an unknown card).
pub open spec fn defense_of(db: Seq<CardView>, id: String) -> int {
    match lookup(db, id@) {
        Some(c) => c.defense as int,
        None => 0,
    }
}

/// Total pitch of the first `n` hand cards, leaving out index `ex`.
pub open spec fn pitch_sum_excluding(db: Seq<CardView>, hand: Seq<String>, ex: int, n: int) -> int
    decreases n,
{
    if n <= 0 {
        0
    } else {
        pitch_sum_excluding(db, hand, ex, n - 1) + if n - 1 == ex {
            0
        } else {
            pitch_of(db, hand[n - 1])
        }
    }
}

/// Total pitch available to player `p` besides the hand card at `ex`.
pub open spec fn pitchable(g: GameModel, p: usize, ex: int) -> int {
    pitch_sum_excluding(g.db, g.players[p as int].hand, ex, g.players[p as int].hand.len() as int)
}

pub open spec fn first_type(c: CardView) -> CardType {
    if c.types.len() > 0 {
        c.types[0]
    } else {
        CardType::Other
    }
}

/// Needs an action point: an action or an attack.
pub open spec fn needs_action_point(c: CardView) -> bool {
    c.types.contains(CardType::Action) || card_is_attack(c)
}

/// The active player may play hand card `i`: it is a known action, instant or
/// attack; an action point is left if it needs one; and the rest of the hand can
/// pay its cost.
pub open spec fn playable(g: GameModel, i: int) -> bool {
    let p = g.active;
    match lookup(g.db, g.players[p as int].hand[i]@) {
        None => false,
        Some(c) => {
            &&& (first_type(c) == CardType::Action || first_type(c) == CardType::Instant
                || card_is_attack(c))
            &&& !(needs_action_point(c) && g.players[p as int].action_points == 0)
            &&& c.cost as int <= pitchable(g, p, i)
        },
    }
}

/// `EndTurn`, then `Play(i)` for every playable hand index `i < n`, ascending.
pub open spec fn legal_upto(g: GameModel, n: int) -> Seq<Action>
    decreases n,
{
    if n <= 0 {
        seq![Action::EndTurn]
    } else {
        let r = legal_upto(g, n - 1);
        if playable(g, n - 1) {
            r.push(Action::Play((n - 1) as usize))
        } else {
            r
        }
    }
}

/// The legal actions of the active player.
pub open spec fn legal(g: GameModel) -> Seq<Action> {
    legal_upto(g, g.players[g.active as int].hand.len() as int)
}

/// Draw: the top card of the deck goes to the hand, if there is one.
pub open spec fn draw_model(pl: PlayerModel) -> PlayerModel {
    if pl.deck.len() > 0 {
        PlayerModel { hand: pl.hand.push(pl.deck[0]), deck: pl.deck.drop_first(), ..pl }
    } else {
        pl
    }
}

/// End of turn for the active player: pitched cards go to the bottom of the
/// deck, the hand is refilled up to intellect, and the other player becomes active.
pub open spec fn end_turn_model(g: GameModel) -> GameModel {
    let p = g.active;
    let pl = g.players[p as int];
    let deck = pl.deck + pl.pitch;
    let need: int = if pl.hand.len() < pl.intellect {
        pl.intellect - pl.hand.len()
    } else {
        0
    };
    let k: int = if need < deck.len() {
        need
    } else {
        deck.len() as int
    };
    let pl2 = PlayerModel {
        deck: deck.skip(k),
        hand: pl.hand + deck.take(k),
        pitch: Seq::empty(),
        ..pl
    };
    GameModel { active: (1 - p) as usize, ..set_player(g, p, pl2) }
}

/// A player from a deck before the opening draw: the deck's cards shuffled
/// with the generator state, nothing in hand. Also gives the state afterwards.
pub open spec fn shuffled_player(d: Deck, st: u64) -> (PlayerModel, u64) {
    let (cards, st2) = rng_shuffle(d.cards@, st);
    (
        PlayerModel {
            hero: d.hero,
            life: d.life,
            intellect: d.intellect,
            deck: cards,
            hand: Seq::empty(),
            arsenal: None,
            pitch: Seq::empty(),
            graveyard: Seq::empty(),
            equipment: d.equipment@,
            weapon: d.weapon,
            action_points: 0,
        },
        st2,
    )
}

/// The opening draw: up to intellect cards from the top of the deck go to the
/// hand.
pub open spec fn opening_draw(pl: PlayerModel) -> PlayerModel {
    let k: int = if (pl.intellect as int) < pl.deck.len() {
        pl.intellect as int
    } else {
        pl.deck.len() as int
    };
    PlayerModel { hand: pl.hand + pl.deck.take(k), deck: pl.deck.skip(k), ..pl }
}

/// Opening state of a player: the deck shuffled with the generator state, and
/// the hand drawn up to intellect. Also gives the generator state afterwards.
pub open spec fn opening_player(d: Deck, st: u64) -> (PlayerModel, u64) {
    let (cards, st2) = rng_shuffle(d.cards@, st);
    let k: int = if (d.intellect as int) < cards.len() {
        d.intellect as int
    } else {
        cards.len() as int
    };
    (
        PlayerModel {
            hero: d.hero,
            life: d.life,
            intellect: d.intellect,
            deck: cards.skip(k),
            hand: cards.take(k),
            arsenal: None,
            pitch: Seq::empty(),
            graveyard: Seq::empty(),
            equipment: d.equipment@,
            weapon: d.weapon,
            action_points: 0,
        },
        st2,
    )
}

/// A new game: both decks shuffled from one generator seeded with `seed` (first
/// deck first), opening hands drawn, player 0 active, turn 0, a 200-turn limit.
pub open spec fn new_game(db: Seq<CardView>, d0: Deck, d1: Deck, seed: u64) -> GameModel {
    let (p0, st1) = opening_player(d0, seed);
    let (p1, st2) = opening_player(d1, st1);
    GameModel {
        db,
        players: seq![p0, p1],
        active: 0,
        turn: 0,
        max_turns: 200,
        log: Seq::empty(),
        verbose: false,
    }
}

/// Hand indices `i < n` whose card pitches for exactly `v`, ascending.
pub open spec fn idx_with_pitch(db: Seq<CardView>, hand: Seq<String>, v: int, n: int) -> Seq<int>
    decreases n,
{
    if n <= 0 {
        Seq::empty()
    } else {
        let r = idx_with_pitch(db, hand, v, n - 1);
        if pitch_of(db, hand[n - 1]) == v {
            r.push(n - 1)
        } else {
            r
        }
    }
}

/// The order in which hand cards are pitched: highest value first (blue, then
/// yellow, then red), by hand position within a value; cards that pitch for
/// nothing are never pitched.
pub open spec fn pay_order(db: Seq<CardView>, hand: Seq<String>) -> Seq<int> {
    idx_with_pitch(db, hand, 3, hand.len() as int) + idx_with_pitch(db, hand, 2, hand.len() as int)
        + idx_with_pitch(db, hand, 1, hand.len() as int)
}

/// Pitch candidates `order[k..]` one by one until `got` covers `cost`:
/// `(number pitched, resources gathered)`.
pub open spec fn spend(
    db: Seq<CardView>,
    hand: Seq<String>,
    order: Seq<int>,
    cost: int,
    k: int,
    got: int,
) -> (int, int)
    decreases order.len() - k,
{
    if k < 0 || k >= order.len() || got >= cost {
        (k, got)
    } else {
        spend(db, hand, order, cost, k + 1, got + pitch_of(db, hand[order[k]]))
    }
}

/// The first `n` hand cards whose index is not in `marked`, in order.
pub open spec fn unmarked(hand: Seq<String>, marked: Seq<int>, n: int) -> Seq<String>
    decreases n,
{
    if n <= 0 {
        Seq::empty()
    } else if marked.contains(n - 1) {
        unmarked(hand, marked, n - 1)
    } else {
        unmarked(hand, marked, n - 1).push(hand[n - 1])
    }
}

/// The first `n` hand cards whose index is in `marked`, highest index first.
pub open spec fn marked_desc(hand: Seq<String>, marked: Seq<int>, n: int) -> Seq<String>
    decreases n,
{
    if n <= 0 {
        Seq::empty()
    } else if marked.contains(n - 1) {
        seq![hand[n - 1]] + marked_desc(hand, marked, n - 1)
    } else {
        marked_desc(hand, marked, n - 1)
    }
}

/// Paying `cost` from a player's hand: the fewest cards by pitching the highest
/// values first; pitched cards leave the hand for the pitch zone (highest hand
/// index first). `None` when the hand cannot cover the cost.
pub open spec fn pay_model(db: Seq<CardView>, pl: PlayerModel, cost: u8) -> Option<PlayerModel> {
    if cost == 0 {
        Some(pl)
    } else {
        let order = pay_order(db, pl.hand);
        let (k, got) = spend(db, pl.hand, order, cost as int, 0, 0);
        if got < cost {
            None
        } else {
            let m = order.take(k);
            Some(
                PlayerModel {
                    hand: unmarked(pl.hand, m, pl.hand.len() as int),
                    pitch: pl.pitch + marked_desc(pl.hand, m, pl.hand.len() as int),
                    ..pl
                },
            )
        }
    }
}

/// A game the engine can step: the active seat exists, and there are two players.
pub open spec fn game_shaped(g: GameModel) -> bool {
    &&& g.active < 2
    &&& g.players.len() == 2
}

/// The first index in `blocks[k..]` below `n`.
pub open spec fn first_valid(blocks: Seq<usize>, n: int, k: int) -> Option<usize>
    decreases blocks.len() - k,
{
    if k < 0 || k >= blocks.len() {
        None
    } else if blocks[k] < n {
        Some(blocks[k])
    } else {
        first_valid(blocks, n, k + 1)
    }
}

/// The defender's hand positions that block: every named position in the hand,
/// or under `dominate` only the first one.
pub open spec fn block_marks(blocks: Seq<usize>, n: int, dominate: bool) -> Seq<int> {
    if dominate {
        match first_valid(blocks, n, 0) {
            Some(b) => seq![b as int],
            None => Seq::empty(),
        }
    } else {
        blocks.map_values(|b: usize| b as int)
    }
}

/// Total defense of the first `n` hand cards whose position is in `marks`.
pub open spec fn marked_defense(db: Seq<CardView>, hand: Seq<String>, marks: Seq<int>, n: int) -> int
    decreases n,
{
    if n <= 0 {
        0
    } else {
        marked_defense(db, hand, marks, n - 1) + if marks.contains(n - 1) {
            defense_of(db, hand[n - 1])
        } else {
            0
        }
    }
}

/// The decimal digits of `n`, most significant first.
pub open spec fn digits(n: nat) -> Seq<char>
    decreases n,
{
    let d = ((n % 10) + 48) as char;
    if n < 10 {
        seq![d]
    } else {
        digits(n / 10).push(d)
    }
}

/// An integer as `Display` writes it: its decimal digits, after a `-` when it
/// is negative.
pub open spec fn decimal(x: int) -> Seq<char> {
    if x < 0 {
        seq!['-'] + digits((-x) as nat)
    } else {
        digits(x as nat)
    }
}

/// The text of a combat log line:
/// `  P{me} plays {name} ({power}p) vs {block} block -> {damage} dmg{mark} [P{defender} life {life}]`.
#[verifier::opaque]
pub open spec fn attack_line(
    me: usize,
    name: Seq<char>,
    power: i32,
    block: i32,
    damage: i32,
    mark: Seq<char>,
    defender: usize,
    life: i32,
) -> Seq<char> {
    "  P"@ + decimal(me as int) + " plays "@ + name + " ("@ + decimal(power as int) + "p) vs "@
        + decimal(block as int) + " block -> "@ + decimal(damage as int) + " dmg"@ + mark + " [P"@
        + decimal(defender as int) + " life "@ + decimal(life as int) + "]"@
}

/// The text of a log line for a non-attack card: `  P{me} plays {name} (non-attack)`.
#[verifier::opaque]
pub open spec fn non_attack_line(me: usize, name: Seq<char>) -> Seq<char> {
    "  P"@ + decimal(me as int) + " plays "@ + name + " (non-attack)"@
}

/// The text of the log line that opens a turn:
/// `Turn {turn} - P{p} ({hero}) [life {life} vs {opp_life}]`.
#[verifier::opaque]
pub open spec fn turn_line(turn: u32, p: usize, hero: Seq<char>, life: i32, opp_life: i32) -> Seq<
    char,
> {
    "Turn "@ + decimal(turn as int) + " - P"@ + decimal(p as int) + " ("@ + hero + ") [life "@
        + decimal(life as int) + " vs "@ + decimal(opp_life as int) + "]"@
}

pub open spec fn hit_mark(hit: bool) -> Seq<char> {
    if hit {
        " HIT"@
    } else {
        ""@
    }
}

/// Formats a combat log line with `std::format!`, whose `Display` writes each
/// integer in decimal (with a leading `-` when negative) and each `&str` as it is:
/// the result is `attack_line` of the arguments.
#[verifier::external_body]
fn attack_line_text(
    me: usize,
    name: &str,
    power: i32,
    block: i32,
    damage: i32,
    mark: &str,
    defender: usize,
    life: i32,
) -> (r: String)
    ensures
        r@ == attack_line(me, name@, power, block, damage, mark@, defender, life),
{
    format!(
        "  P{me} plays {name} ({power}p) vs {block} block -> {damage} dmg{mark} [P{defender} life {life}]"
    )
}

/// Formats the log line for a non-attack card with `std::format!` (integers in
/// decimal, `&str` as it is): the result is `non_attack_line` of the arguments.
#[verifier::external_body]
fn non_attack_line_text(me: usize, name: &str) -> (r: String)
    ensures
        r@ == non_attack_line(me, name@),
{
    format!("  P{me} plays {name} (non-attack)")
}

/// Formats the log line that opens a turn with `std::format!` (integers in
/// decimal, `&str` as it is): the result is `turn_line` of the arguments.
#[verifier::external_body]
fn turn_line_text(turn: u32, p: usize, hero: &str, life: i32, opp_life: i32) -> (r: String)
    ensures
        r@ == turn_line(turn, p, hero@, life, opp_life),
{
    format!("Turn {turn} - P{p} ({hero}) [life {life} vs {opp_life}]")
}

/// Some value of type `R` fixed by `inputs` alone: a function of `inputs` about
/// which nothing else is known.
pub open spec fn fixed_by<X, R>(inputs: X) -> R {
    choose|r: R| #[trigger] any_of(inputs, r)
}

/// Holds of every pair.
pub open spec fn any_of<X, R>(inputs: X, r: R) -> bool {
    true
}

/// Agents decide actions and blocks. They get a read-only `&Game` plus their seat.
///
/// Each agent's decisions are plain-value functions of its own value and of the
/// game (`spec_action`, `spec_blocks`): the engine's rules are stated over them.
/// The library's agents state these functions. An agent that does not is taken
/// as deciding by some function of its own value and its inputs about which
/// nothing else is known (`fixed_by`): the rules then hold of its games as long
/// as it decides from those alone, and they cannot tell what it decides.
pub trait Agent: Sized {
    /// The action chosen, and the agent afterwards.
    open spec fn spec_action(&self, g: GameModel, me: usize, legal: Seq<Action>) -> (Action, Self) {
        fixed_by::<(Self, GameModel, usize, Seq<Action>), (Action, Self)>((*self, g, me, legal))
    }

    /// The blocking hand positions chosen, and the agent afterwards.
    open spec fn spec_blocks(&self, g: GameModel, me: usize, power: i32, dominate: bool) -> (
        Seq<usize>,
        Self,
    ) {
        fixed_by::<(Self, GameModel, usize, i32, bool), (Seq<usize>, Self)>(
            (*self, g, me, power, dominate),
        )
    }

    fn name(&self) -> &str;

    /// Choose one of `legal` for seat `me`. The seat must exist and the list be
    /// non-empty: an agent that looks up its own seat or draws from the list has
    /// nothing to work with otherwise.
    fn choose_action(&mut self, game: &Game, me: usize, legal: &[Action]) -> (r: Action)
        requires
            me < 2,
            legal@.len() > 0,
        ensures
            (r, *final(self)) == old(self).spec_action(game@, me, legal@),
    ;

    /// Return hand indices (of `me`) to commit as blocks against `incoming_power`.
    fn choose_blocks(&mut self, game: &Game, me: usize, incoming_power: i32, dominate: bool) -> (r:
        Vec<usize>)
        requires
            me < 2,
        ensures
            (r@, *final(self)) == old(self).spec_blocks(game@, me, incoming_power, dominate),
    ;
}

/// An attack: the defender's agent picks blockers, blocking cards go to the
/// defender's graveyard (highest position first), the defender loses what the
/// power exceeds the block by, the line is logged, and a hit with an on-hit draw
/// draws the attacker a card.
pub open spec fn attack_model<A0: Agent, A1: Agent>(
    g: GameModel,
    me: usize,
    card: CardView,
    a0: A0,
    a1: A1,
) -> (GameModel, A0, A1) {
    let power: i32 = match card.power {
        Some(p) => p,
        None => 0,
    };
    let d = (1 - me) as usize;
    let dom = card.keywords.dominate;
    let (blocks, b0, b1) = if d == 0 {
        let (b, x) = a0.spec_blocks(g, d, power, dom);
        (b, x, a1)
    } else {
        let (b, x) = a1.spec_blocks(g, d, power, dom);
        (b, a0, x)
    };
    let dp = g.players[d as int];
    let n = dp.hand.len() as int;
    let marks = block_marks(blocks, n, dom);
    let total = marked_defense(g.db, dp.hand, marks, n);
    let dmg: int = if power - total > 0 {
        power - total
    } else {
        0
    };
    let dp2 = PlayerModel {
        hand: unmarked(dp.hand, marks, n),
        graveyard: dp.graveyard + marked_desc(dp.hand, marks, n),
        life: (dp.life - dmg) as i32,
        ..dp
    };
    let g3 = set_player(g, d, dp2);
    let g4 = add_log(
        g3,
        attack_line(me, card.name, power, total as i32, dmg as i32, hit_mark(dmg > 0), d, dp2.life),
    );
    let g5 = if dmg > 0 && card.keywords.draws_on_hit {
        set_player(g4, me, draw_model(g4.players[me as int]))
    } else {
        g4
    };
    (g5, b0, b1)
}

/// Playing hand card `idx` of player `me`: it leaves the hand; an unknown card is
/// lost; if the cost cannot be paid nothing changes; otherwise the cost is pitched,
/// an attack is resolved (or a non-attack logged), the card goes to the graveyard,
/// and without `go again` one action point is spent.
pub open spec fn play_model<A0: Agent, A1: Agent>(
    g: GameModel,
    idx: usize,
    me: usize,
    a0: A0,
    a1: A1,
) -> (GameModel, A0, A1) {
    let pl = g.players[me as int];
    if idx >= pl.hand.len() {
        (g, a0, a1)
    } else {
        let id = pl.hand[idx as int];
        let pl1 = PlayerModel { hand: pl.hand.remove(idx as int), ..pl };
        match lookup(g.db, id@) {
            None => (set_player(g, me, pl1), a0, a1),
            Some(card) => match pay_model(g.db, pl1, card.cost) {
                None => (g, a0, a1),
                Some(pl2) => {
                    let g2 = set_player(g, me, pl2);
                    let (g3, b0, b1) = if card_is_attack(card) {
                        attack_model(g2, me, card, a0, a1)
                    } else {
                        (add_log(g2, non_attack_line(me, card.name)), a0, a1)
                    };
                    let p3 = g3.players[me as int];
                    let ap: u8 = if card.keywords.go_again {
                        p3.action_points
                    } else if p3.action_points > 0 {
                        (p3.action_points - 1) as u8
                    } else {
                        0
                    };
                    (
                        set_player(
                            g3,
                            me,
                            PlayerModel {
                                graveyard: p3.graveyard.push(id),
                                action_points: ap,
                                ..p3
                            },
                        ),
                        b0,
                        b1,
                    )
                },
            },
        }
    }
}

/// The action the active player's agent chooses; anything not legal counts as
/// `EndTurn`.
pub open spec fn chosen_action<A0: Agent, A1: Agent>(g: GameModel, a0: A0, a1: A1) -> (
    Action,
    A0,
    A1,
) {
    let p = g.active;
    let lg = legal(g);
    let (a, x0, x1) = if p == 0 {
        let (a, x) = a0.spec_action(g, 0, lg);
        (a, x, a1)
    } else {
        let (a, x) = a1.spec_action(g, 1, lg);
        (a, a0, x)
    };
    (
        if lg.contains(a) {
            a
        } else {
            Action::EndTurn
        },
        x0,
        x1,
    )
}

/// The action phase after `done` actions (at most 100): the agent plays until it
/// ends the turn, a hero falls (`true`), or no action point is left.
pub open spec fn action_phase<A0: Agent, A1: Agent>(g: GameModel, a0: A0, a1: A1, done: int) -> (
    bool,
    GameModel,
    A0,
    A1,
)
    decreases 100 - done,
{
    if done >= 100 {
        (false, g, a0, a1)
    } else {
        let (act, x0, x1) = chosen_action(g, a0, a1);
        match act {
            Action::EndTurn => (false, g, x0, x1),
            Action::Play(i) => {
                let (g2, y0, y1) = play_model(g, i, g.active, x0, x1);
                if winner(g2) is Some {
                    (true, g2, y0, y1)
                } else if g2.players[g.active as int].action_points == 0 {
                    (false, g2, y0, y1)
                } else {
                    action_phase(g2, y0, y1, done + 1)
                }
            },
        }
    }
}

/// The start of a turn: the counter advances, the active player gets one action
/// point, and the turn is logged.
pub open spec fn turn_start(g: GameModel) -> GameModel {
    let p = g.active;
    let pl = g.players[p as int];
    let g1 = GameModel {
        turn: (g.turn + 1) as u32,
        ..set_player(g, p, PlayerModel { action_points: 1, ..pl })
    };
    add_log(g1, turn_line(g1.turn, p, pl.hero@, pl.life, g.players[1 - p].life))
}

/// One turn: the turn counter advances, the active player gets one action point,
/// the turn is logged, the action phase runs, and unless a hero fell the turn ends.
#[verifier::opaque]
pub open spec fn turn_model<A0: Agent, A1: Agent>(g: GameModel, a0: A0, a1: A1) -> (
    GameModel,
    A0,
    A1,
) {
    let (won, g3, b0, b1) = action_phase(turn_start(g), a0, a1, 0);
    if won {
        (g3, b0, b1)
    } else {
        (end_turn_model(g3), b0, b1)
    }
}

/// A whole game from `g`, with at most `fuel` loop steps: `None` when that is not
/// enough. A fallen hero ends it; so does the turn limit (a draw), and a player
/// with cards left who cannot present a turn loses; a passive target (intellect
/// 0, out of cards) is skipped.
pub open spec fn run_model<A0: Agent, A1: Agent>(g: GameModel, a0: A0, a1: A1, fuel: nat) -> Option<
    (Outcome, GameModel, A0, A1),
>
    decreases fuel,
{
    if fuel == 0 {
        None
    } else if winner(g) is Some {
        Some((winner(g)->0, g, a0, a1))
    } else if g.turn >= g.max_turns {
        Some((Outcome::Draw, g, a0, a1))
    } else if passive_out(g.players[g.active as int]) {
        run_model(GameModel { active: (1 - g.active) as usize, ..g }, a0, a1, (fuel - 1) as nat)
    } else if exhausted(g.players[g.active as int]) {
        Some((Outcome::Win((1 - g.active) as usize), g, a0, a1))
    } else {
        let (g2, b0, b1) = turn_model(g, a0, a1);
        run_model(g2, b0, b1, (fuel - 1) as nat)
    }
}

// ---------------------------------------------------------------------------
// Where the engine's integers suffice
// ---------------------------------------------------------------------------

/// The arithmetic of an attack fits the engine's integers: the block total and
/// the power beyond it fit in `i32`, and so does the defender's life after the
/// damage.
pub open spec fn attack_ok<A0: Agent, A1: Agent>(
    g: GameModel,
    me: usize,
    card: CardView,
    a0: A0,
    a1: A1,
) -> bool {
    let power: i32 = match card.power {
        Some(p) => p,
        None => 0,
    };
    let d = (1 - me) as usize;
    let dom = card.keywords.dominate;
    let blocks = if d == 0 {
        a0.spec_blocks(g, d, power, dom).0
    } else {
        a1.spec_blocks(g, d, power, dom).0
    };
    let dp = g.players[d as int];
    let n = dp.hand.len() as int;
    let total = marked_defense(g.db, dp.hand, block_marks(blocks, n, dom), n);
    combat_fits(power as int, total, dp.life as int)
}

/// The sums of a combat fit `i32`: the block total, the power beyond it, and the
/// defender's life after the damage.
pub open spec fn combat_fits(power: int, total: int, life: int) -> bool {
    let beyond = power - total;
    let dmg = if beyond > 0 {
        beyond
    } else {
        0
    };
    &&& i32::MIN <= total <= i32::MAX
    &&& i32::MIN <= beyond <= i32::MAX
    &&& life - dmg >= i32::MIN
}

proof fn lemma_attack_ok_iff<A0: Agent, A1: Agent>(
    g: GameModel,
    me: usize,
    card: CardView,
    a0: A0,
    a1: A1,
    blocks: Seq<usize>,
    total: int,
)
    requires
        me < 2,
        blocks == (if me == 1 {
            a0.spec_blocks(g, 0, attack_power(card), card.keywords.dominate).0
        } else {
            a1.spec_blocks(g, 1, attack_power(card), card.keywords.dominate).0
        }),
        total == marked_defense(
            g.db,
            g.players[1 - me].hand,
            block_marks(blocks, g.players[1 - me].hand.len() as int, card.keywords.dominate),
            g.players[1 - me].hand.len() as int,
        ),
    ensures
        attack_ok(g, me, card, a0, a1) == combat_fits(
            attack_power(card) as int,
            total,
            g.players[1 - me].life as int,
        ),
{
}

/// An attacking card's power (0 where it prints none).
pub open spec fn attack_power(card: CardView) -> i32 {
    match card.power {
        Some(p) => p,
        None => 0,
    }
}

/// Playing hand card `idx` stays within the engine's integers (see `attack_ok`).
pub open spec fn play_ok<A0: Agent, A1: Agent>(
    g: GameModel,
    idx: usize,
    me: usize,
    a0: A0,
    a1: A1,
) -> bool {
    let pl = g.players[me as int];
    if idx >= pl.hand.len() {
        true
    } else {
        let pl1 = PlayerModel { hand: pl.hand.remove(idx as int), ..pl };
        match lookup(g.db, pl.hand[idx as int]@) {
            None => true,
            Some(card) => match pay_model(g.db, pl1, card.cost) {
                None => true,
                Some(pl2) => !card_is_attack(card) || attack_ok(
                    set_player(g, me, pl2),
                    me,
                    card,
                    a0,
                    a1,
                ),
            },
        }
    }
}

/// Every play of an action phase stays within the engine's integers.
pub open spec fn phase_ok<A0: Agent, A1: Agent>(g: GameModel, a0: A0, a1: A1, done: int) -> bool
    decreases 100 - done,
{
    if done >= 100 {
        true
    } else {
        let (act, x0, x1) = chosen_action(g, a0, a1);
        match act {
            Action::EndTurn => true,
            Action::Play(i) => {
                let (g2, y0, y1) = play_model(g, i, g.active, x0, x1);
                &&& play_ok(g, i, g.active, x0, x1)
                &&& (winner(g2) is Some || g2.players[g.active as int].action_points == 0
                    || phase_ok(g2, y0, y1, done + 1))
            },
        }
    }
}

/// A turn stays within the engine's integers: the turn counter can advance, and
/// every play fits.
pub open spec fn turn_ok<A0: Agent, A1: Agent>(g: GameModel, a0: A0, a1: A1) -> bool {
    g.turn < u32::MAX && phase_ok(turn_start(g), a0, a1, 0)
}

/// Within `fuel` loop steps the game finishes, and every turn of it stays within
/// the engine's integers.
pub open spec fn run_ok<A0: Agent, A1: Agent>(g: GameModel, a0: A0, a1: A1, fuel: nat) -> bool
    decreases fuel,
{
    if fuel == 0 {
        false
    } else if winner(g) is Some || g.turn >= g.max_turns {
        true
    } else if passive_out(g.players[g.active as int]) {
        run_ok(GameModel { active: (1 - g.active) as usize, ..g }, a0, a1, (fuel - 1) as nat)
    } else if exhausted(g.players[g.active as int]) {
        true
    } else {
        let (g2, b0, b1) = turn_model(g, a0, a1);
        turn_ok(g, a0, a1) && run_ok(g2, b0, b1, (fuel - 1) as nat)
    }
}

/// The game finishes, and stays within the engine's integers on the way.
pub open spec fn run_finishes<A0: Agent, A1: Agent>(g: GameModel, a0: A0, a1: A1) -> bool {
    exists|f: nat| run_ok(g, a0, a1, f)
}

/// What is left of a run: two loop steps per remaining turn, one less when the
/// player to move is not a passive target.
pub open spec fn run_measure(g: GameModel) -> int {
    if g.turn < g.max_turns {
        2 * (g.max_turns - g.turn) + if passive_out(g.players[g.active as int]) {
            1int
        } else {
            0int
        }
    } else {
        0
    }
}

proof fn lemma_finishes_skip<A0: Agent, A1: Agent>(g: GameModel, a0: A0, a1: A1)
    requires
        !(winner(g) is Some),
        g.turn < g.max_turns,
        passive_out(g.players[g.active as int]),
    ensures
        run_finishes(g, a0, a1) == run_finishes(
            GameModel { active: (1 - g.active) as usize, ..g },
            a0,
            a1,
        ),
{
    let h = GameModel { active: (1 - g.active) as usize, ..g };
    if run_finishes(g, a0, a1) {
        let f = choose|f: nat| run_ok(g, a0, a1, f);
        assert(run_ok(h, a0, a1, (f - 1) as nat));
    }
    if run_finishes(h, a0, a1) {
        let f = choose|f: nat| run_ok(h, a0, a1, f);
        assert(run_ok(g, a0, a1, (f + 1) as nat));
    }
}

proof fn lemma_finishes_turn<A0: Agent, A1: Agent>(g: GameModel, a0: A0, a1: A1)
    requires
        !(winner(g) is Some),
        g.turn < g.max_turns,
        !passive_out(g.players[g.active as int]),
        !exhausted(g.players[g.active as int]),
    ensures
        run_finishes(g, a0, a1) == (turn_ok(g, a0, a1) && run_finishes(
            turn_model(g, a0, a1).0,
            turn_model(g, a0, a1).1,
            turn_model(g, a0, a1).2,
        )),
{
    let (g2, b0, b1) = turn_model(g, a0, a1);
    if run_finishes(g, a0, a1) {
        let f = choose|f: nat| run_ok(g, a0, a1, f);
        assert(run_ok(g2, b0, b1, (f - 1) as nat));
    }
    if turn_ok(g, a0, a1) && run_finishes(g2, b0, b1) {
        let f = choose|f: nat| run_ok(g2, b0, b1, f);
        assert(run_ok(g, a0, a1, (f + 1) as nat));
    }
}

proof fn lemma_stuck<A0: Agent, A1: Agent>(g: GameModel, a0: A0, a1: A1, f: nat)
    requires
        g.active < 2,
        !(winner(g) is Some),
        g.turn < g.max_turns,
        passive_out(g.players[0]),
        passive_out(g.players[1]),
    ensures
        !run_ok(g, a0, a1, f),
    decreases f,
{
    if f > 0 {
        lemma_stuck(GameModel { active: (1 - g.active) as usize, ..g }, a0, a1, (f - 1) as nat);
    }
}

/// Two passive targets with no winner before the turn limit pass the turn back
/// and forth for ever.
proof fn lemma_never_finishes<A0: Agent, A1: Agent>(g: GameModel, a0: A0, a1: A1)
    requires
        g.active < 2,
        !(winner(g) is Some),
        g.turn < g.max_turns,
        passive_out(g.players[g.active as int]),
        passive_out(g.players[1 - g.active]),
    ensures
        !run_finishes(g, a0, a1),
{
    assert forall|f: nat| !run_ok(g, a0, a1, f) by {
        lemma_stuck(g, a0, a1, f);
    }
}

/// What every step of the engine leaves alone.
pub open spec fn same_frame(g: GameModel, r: GameModel) -> bool {
    &&& r.db == g.db
    &&& r.active == g.active
    &&& r.turn == g.turn
    &&& r.max_turns == g.max_turns
    &&& r.players.len() == g.players.len()
    &&& forall|i: int|
        0 <= i < g.players.len() ==> (#[trigger] r.players[i]).intellect == g.players[i].intellect
            && r.players[i].arsenal == g.players[i].arsenal
}

proof fn lemma_pay_keeps(db: Seq<CardView>, pl: PlayerModel, cost: u8)
    ensures
        pay_model(db, pl, cost) matches Some(p2) ==> p2.hand.len() <= pl.hand.len()
            && p2.intellect == pl.intellect && p2.arsenal == pl.arsenal,
{
    if cost != 0 {
        let order = pay_order(db, pl.hand);
        let (k, got) = spend(db, pl.hand, order, cost as int, 0, 0);
        lemma_unmarked_len(pl.hand, order.take(k), pl.hand.len() as int);
    }
}

proof fn lemma_attack_keeps<A0: Agent, A1: Agent>(
    g: GameModel,
    me: usize,
    card: CardView,
    a0: A0,
    a1: A1,
)
    requires
        game_shaped(g),
        me < 2,
    ensures
        same_frame(g, attack_model(g, me, card, a0, a1).0),
        attack_model(g, me, card, a0, a1).0.players[me as int].hand.len() <= g.players[me as int].hand.len()
            + 1,
        attack_model(g, me, card, a0, a1).0.players[1 - me].hand.len() <= g.players[1 - me].hand.len(),
{
    let power: i32 = match card.power {
        Some(p) => p,
        None => 0,
    };
    let d = (1 - me) as usize;
    let dom = card.keywords.dominate;
    let (blocks, b0, b1) = if d == 0 {
        let (b, x) = a0.spec_blocks(g, d, power, dom);
        (b, x, a1)
    } else {
        let (b, x) = a1.spec_blocks(g, d, power, dom);
        (b, a0, x)
    };
    let dp = g.players[d as int];
    let n = dp.hand.len() as int;
    let marks = block_marks(blocks, n, dom);
    lemma_unmarked_len(dp.hand, marks, n);
}

proof fn lemma_play_keeps<A0: Agent, A1: Agent>(
    g: GameModel,
    idx: usize,
    me: usize,
    a0: A0,
    a1: A1,
)
    requires
        game_shaped(g),
        me < 2,
    ensures
        same_frame(g, play_model(g, idx, me, a0, a1).0),
        play_model(g, idx, me, a0, a1).0.players[me as int].hand.len() <= g.players[me as int].hand.len(),
        play_model(g, idx, me, a0, a1).0.players[1 - me].hand.len() <= g.players[1 - me].hand.len(),
        game_shaped(play_model(g, idx, me, a0, a1).0),
{
    let pl = g.players[me as int];
    if idx < pl.hand.len() {
        let id = pl.hand[idx as int];
        let pl1 = PlayerModel { hand: pl.hand.remove(idx as int), ..pl };
        if let Some(card) = lookup(g.db, id@) {
            lemma_pay_keeps(g.db, pl1, card.cost);
            if let Some(pl2) = pay_model(g.db, pl1, card.cost) {
                let g2 = set_player(g, me, pl2);
                if card_is_attack(card) {
                    lemma_attack_keeps(g2, me, card, a0, a1);
                }
            }
        }
    }
}

proof fn lemma_phase_keeps<A0: Agent, A1: Agent>(g: GameModel, a0: A0, a1: A1, done: int)
    requires
        game_shaped(g),
    ensures
        same_frame(g, action_phase(g, a0, a1, done).1),
        game_shaped(action_phase(g, a0, a1, done).1),
    decreases 100 - done,
{
    if done < 100 {
        let (act, x0, x1) = chosen_action(g, a0, a1);
        if let Action::Play(i) = act {
            lemma_play_keeps(g, i, g.active, x0, x1);
            let (g2, y0, y1) = play_model(g, i, g.active, x0, x1);
            if !(winner(g2) is Some) && g2.players[g.active as int].action_points != 0 {
                lemma_phase_keeps(g2, y0, y1, done + 1);
            }
        }
    }
}

pub(crate) proof fn lemma_turn_keeps<A0: Agent, A1: Agent>(g: GameModel, a0: A0, a1: A1)
    requires
        game_shaped(g),
        g.turn < g.max_turns,
    ensures
        ({
            let r = turn_model(g, a0, a1).0;
            &&& game_shaped(r)
            &&& r.db == g.db
            &&& r.turn == g.turn + 1
            &&& r.max_turns == g.max_turns
            &&& r.players[0].intellect == g.players[0].intellect
            &&& r.players[1].intellect == g.players[1].intellect
            &&& r.players[0].arsenal == g.players[0].arsenal
            &&& r.players[1].arsenal == g.players[1].arsenal
        }),
{
    reveal(turn_model);
    let p = g.active;
    let pl = g.players[p as int];
    let g1 = GameModel {
        turn: (g.turn + 1) as u32,
        ..set_player(g, p, PlayerModel { action_points: 1, ..pl })
    };
    let g2 = add_log(g1, turn_line(g1.turn, p, pl.hero@, pl.life, g.players[1 - p].life));
    lemma_phase_keeps(g2, a0, a1, 0);
    let g3 = action_phase(g2, a0, a1, 0).1;
    assert(g3.players[0] == (#[trigger] g3.players[0]));
    assert(g3.players[1] == (#[trigger] g3.players[1]));
}

proof fn lemma_legal_upto_first(g: GameModel, n: int)
    ensures
        legal_upto(g, n).len() >= 1,
        legal_upto(g, n)[0] == Action::EndTurn,
    decreases n,
{
    if n > 0 {
        lemma_legal_upto_first(g, n - 1);
    }
}

/// Ending the turn is always a legal action, and it comes first.
pub proof fn law_end_turn_always_legal(g: GameModel)
    ensures
        legal(g).len() >= 1,
        legal(g)[0] == Action::EndTurn,
        legal(g).contains(Action::EndTurn),
{
    lemma_legal_upto_first(g, g.players[g.active as int].hand.len() as int);
    assert(legal(g)[0] == Action::EndTurn);
}

/// A finished game is a function of where it started: from the same state with
/// the same agents, any two runs that finish give the same outcome, the same
/// final state and the same agents afterwards. With `Game::new` a function of
/// its card pool, decks and seed, the same seed gives the same game.
pub proof fn law_run_deterministic<A0: Agent, A1: Agent>(
    g: GameModel,
    a0: A0,
    a1: A1,
    f1: nat,
    f2: nat,
)
    requires
        run_model(g, a0, a1, f1) is Some,
        run_model(g, a0, a1, f2) is Some,
    ensures
        run_model(g, a0, a1, f1) == run_model(g, a0, a1, f2),
    decreases f1,
{
    if winner(g) is Some || g.turn >= g.max_turns {
    } else if passive_out(g.players[g.active as int]) {
        law_run_deterministic(
            GameModel { active: (1 - g.active) as usize, ..g },
            a0,
            a1,
            (f1 - 1) as nat,
            (f2 - 1) as nat,
        );
    } else if exhausted(g.players[g.active as int]) {
    } else {
        let (g2, b0, b1) = turn_model(g, a0, a1);
        law_run_deterministic(g2, b0, b1, (f1 - 1) as nat, (f2 - 1) as nat);
    }
}

/// Same card pool, same decks, same seed, same agents: same outcome and same
/// final game.
pub proof fn law_same_seed_same_result<A0: Agent, A1: Agent>(
    db: Seq<CardView>,
    d0: Deck,
    d1: Deck,
    seed: u64,
    a0: A0,
    a1: A1,
    f1: nat,
    f2: nat,
)
    requires
        run_model(new_game(db, d0, d1, seed), a0, a1, f1) is Some,
        run_model(new_game(db, d0, d1, seed), a0, a1, f2) is Some,
    ensures
        run_model(new_game(db, d0, d1, seed), a0, a1, f1) == run_model(
            new_game(db, d0, d1, seed),
            a0,
            a1,
            f2,
        ),
{
    law_run_deterministic(new_game(db, d0, d1, seed), a0, a1, f1, f2);
}

proof fn lemma_attack_life<A0: Agent, A1: Agent>(
    g: GameModel,
    me: usize,
    card: CardView,
    a0: A0,
    a1: A1,
)
    requires
        game_shaped(g),
        me < 2,
        attack_ok(g, me, card, a0, a1),
    ensures
        attack_model(g, me, card, a0, a1).0.players[0].life <= g.players[0].life,
        attack_model(g, me, card, a0, a1).0.players[1].life <= g.players[1].life,
{
    let power: i32 = match card.power {
        Some(p) => p,
        None => 0,
    };
    let d = (1 - me) as usize;
    let dom = card.keywords.dominate;
    let (blocks, b0, b1) = if d == 0 {
        let (b, x) = a0.spec_blocks(g, d, power, dom);
        (b, x, a1)
    } else {
        let (b, x) = a1.spec_blocks(g, d, power, dom);
        (b, a0, x)
    };
    let dp = g.players[d as int];
    let n = dp.hand.len() as int;
    let r = attack_model(g, me, card, a0, a1).0;
    assert(r.players[0] == (#[trigger] r.players[0]));
    assert(r.players[1] == (#[trigger] r.players[1]));
}

proof fn lemma_play_life<A0: Agent, A1: Agent>(g: GameModel, idx: usize, me: usize, a0: A0, a1: A1)
    requires
        game_shaped(g),
        me < 2,
        play_ok(g, idx, me, a0, a1),
    ensures
        play_model(g, idx, me, a0, a1).0.players[0].life <= g.players[0].life,
        play_model(g, idx, me, a0, a1).0.players[1].life <= g.players[1].life,
{
    let pl = g.players[me as int];
    if idx < pl.hand.len() {
        let id = pl.hand[idx as int];
        let pl1 = PlayerModel { hand: pl.hand.remove(idx as int), ..pl };
        if let Some(card) = lookup(g.db, id@) {
            if let Some(pl2) = pay_model(g.db, pl1, card.cost) {
                let g2 = set_player(g, me, pl2);
                assert(game_shaped(g2));
                if card_is_attack(card) {
                    lemma_attack_life(g2, me, card, a0, a1);
                }
            }
        }
    }
}

proof fn lemma_phase_life<A0: Agent, A1: Agent>(g: GameModel, a0: A0, a1: A1, done: int)
    requires
        game_shaped(g),
        phase_ok(g, a0, a1, done),
    ensures
        action_phase(g, a0, a1, done).1.players[0].life <= g.players[0].life,
        action_phase(g, a0, a1, done).1.players[1].life <= g.players[1].life,
    decreases 100 - done,
{
    if done < 100 {
        let (act, x0, x1) = chosen_action(g, a0, a1);
        if let Action::Play(i) = act {
            lemma_play_keeps(g, i, g.active, x0, x1);
            lemma_play_life(g, i, g.active, x0, x1);
            let (g2, y0, y1) = play_model(g, i, g.active, x0, x1);
            if !(winner(g2) is Some) && g2.players[g.active as int].action_points != 0 {
                lemma_phase_life(g2, y0, y1, done + 1);
            }
        }
    }
}

/// A turn never raises a hero's life: damage is the only change to life.
pub proof fn law_turn_life<A0: Agent, A1: Agent>(g: GameModel, a0: A0, a1: A1)
    requires
        game_shaped(g),
        turn_ok(g, a0, a1),
    ensures
        turn_model(g, a0, a1).0.players[0].life <= g.players[0].life,
        turn_model(g, a0, a1).0.players[1].life <= g.players[1].life,
{
    reveal(turn_model);
    let p = g.active;
    let pl = g.players[p as int];
    let g1 = GameModel {
        turn: (g.turn + 1) as u32,
        ..set_player(g, p, PlayerModel { action_points: 1, ..pl })
    };
    let g2 = add_log(g1, turn_line(g1.turn, p, pl.hero@, pl.life, g.players[1 - p].life));
    assert(g2.players[0].life == g.players[0].life);
    assert(g2.players[1].life == g.players[1].life);
    lemma_phase_keeps(g2, a0, a1, 0);
    lemma_phase_life(g2, a0, a1, 0);
    let g3 = action_phase(g2, a0, a1, 0).1;
    let e = end_turn_model(g3);
    assert(e.players[0] == (#[trigger] e.players[0]));
    assert(e.players[1] == (#[trigger] e.players[1]));
}

/// Over a whole game no hero's life ever rises: the finished game leaves each
/// hero at or below the life it started with.
pub proof fn law_life_never_rises<A0: Agent, A1: Agent>(g: GameModel, a0: A0, a1: A1, fuel: nat)
    requires
        game_shaped(g),
        run_ok(g, a0, a1, fuel),
    ensures
        run_model(g, a0, a1, fuel) matches Some(res) ==> res.1.players[0].life
            <= g.players[0].life && res.1.players[1].life <= g.players[1].life,
    decreases fuel,
{
    if fuel > 0 && !(winner(g) is Some) && g.turn < g.max_turns {
        if passive_out(g.players[g.active as int]) {
            let h = GameModel { active: (1 - g.active) as usize, ..g };
            law_life_never_rises(h, a0, a1, (fuel - 1) as nat);
        } else if !exhausted(g.players[g.active as int]) {
            lemma_turn_keeps(g, a0, a1);
            law_turn_life(g, a0, a1);
            let (g2, b0, b1) = turn_model(g, a0, a1);
            law_life_never_rises(g2, b0, b1, (fuel - 1) as nat);
        }
    }
}

/// Loop steps that a run from `g` needs at most when some hero has intellect
/// above 0: two per remaining turn (a passive target's skipped turn and the
/// other hero's turn), and one to finish.
pub open spec fn run_bound(g: GameModel) -> nat {
    if g.turn >= g.max_turns {
        1
    } else {
        (2 * (g.max_turns - g.turn) + 2) as nat
    }
}

proof fn lemma_run_ends<A0: Agent, A1: Agent>(g: GameModel, a0: A0, a1: A1, fuel: nat)
    requires
        game_shaped(g),
        g.players[0].intellect > 0 || g.players[1].intellect > 0,
        fuel >= if g.turn >= g.max_turns {
            1
        } else if passive_out(g.players[g.active as int]) {
            2 * (g.max_turns - g.turn) + 2
        } else {
            2 * (g.max_turns - g.turn) + 1
        },
    ensures
        run_model(g, a0, a1, fuel) is Some,
    decreases fuel,
{
    if !(winner(g) is Some) && g.turn < g.max_turns {
        if passive_out(g.players[g.active as int]) {
            let h = GameModel { active: (1 - g.active) as usize, ..g };
            assert(!passive_out(h.players[h.active as int]));
            lemma_run_ends(h, a0, a1, (fuel - 1) as nat);
        } else if !exhausted(g.players[g.active as int]) {
            lemma_turn_keeps(g, a0, a1);
            let (g2, b0, b1) = turn_model(g, a0, a1);
            lemma_run_ends(g2, b0, b1, (fuel - 1) as nat);
        }
    }
}

/// Every game in which some hero has intellect above 0 finishes: within
/// `run_bound` loop steps the run reaches a winner, the turn limit or a fatigue
/// loss, whatever the agents choose. (Only two passive targets facing each
/// other pass the turn back and forth for ever.)
pub proof fn law_run_ends<A0: Agent, A1: Agent>(g: GameModel, a0: A0, a1: A1)
    requires
        game_shaped(g),
        g.players[0].intellect > 0 || g.players[1].intellect > 0,
    ensures
        run_model(g, a0, a1, run_bound(g)) is Some,
{
    lemma_run_ends(g, a0, a1, run_bound(g));
}

proof fn lemma_unmarked_none(hand: Seq<String>, n: int)
    requires
        0 <= n,
    ensures
        unmarked(hand, Seq::empty(), n).len() == n,
    decreases n,
{
    if n > 0 {
        lemma_unmarked_none(hand, n - 1);
    }
}

proof fn lemma_unmarked_one(hand: Seq<String>, b: int, n: int)
    requires
        0 <= n,
    ensures
        unmarked(hand, seq![b], n).len() == n - if 0 <= b < n {
            1int
        } else {
            0int
        },
    decreases n,
{
    if n > 0 {
        lemma_unmarked_one(hand, b, n - 1);
        assert(seq![b].contains(n - 1) == (b == n - 1)) by {
            if b == n - 1 {
                assert(seq![b][0] == n - 1);
            }
        }
    }
}

/// Against a `dominate` attack the defender blocks with at most one card: its
/// hand shrinks by at most one.
pub proof fn law_dominate_single_block<A0: Agent, A1: Agent>(
    g: GameModel,
    me: usize,
    card: CardView,
    a0: A0,
    a1: A1,
)
    requires
        me < 2,
        g.players.len() == 2,
        card.keywords.dominate,
    ensures
        attack_model(g, me, card, a0, a1).0.players[1 - me].hand.len() + 1 >= g.players[1
            - me].hand.len(),
{
    let power: i32 = match card.power {
        Some(p) => p,
        None => 0,
    };
    let d = (1 - me) as usize;
    let (blocks, b0, b1) = if d == 0 {
        let (b, x) = a0.spec_blocks(g, d, power, true);
        (b, x, a1)
    } else {
        let (b, x) = a1.spec_blocks(g, d, power, true);
        (b, a0, x)
    };
    let dp = g.players[d as int];
    let n = dp.hand.len() as int;
    match first_valid(blocks, n, 0) {
        Some(b) => lemma_unmarked_one(dp.hand, b as int, n),
        None => lemma_unmarked_none(dp.hand, n),
    }
    let r = attack_model(g, me, card, a0, a1).0;
    assert(r.players[d as int] == (#[trigger] r.players[d as int]));
}

// ---------------------------------------------------------------------------
// Card conservation
// ---------------------------------------------------------------------------

pub open spec fn arsenal_seq(a: Option<String>) -> Seq<String> {
    match a {
        Some(x) => seq![x],
        None => Seq::empty(),
    }
}

/// Every card a player owns: deck, hand, pitch zone, graveyard and arsenal.
pub open spec fn owned(pl: PlayerModel) -> Multiset<String> {
    pl.deck.to_multiset().add(pl.hand.to_multiset()).add(pl.pitch.to_multiset()).add(
        pl.graveyard.to_multiset(),
    ).add(arsenal_seq(pl.arsenal).to_multiset())
}

/// Every card the player owns is in the card pool.
pub open spec fn all_known(db: Seq<CardView>, pl: PlayerModel) -> bool {
    forall|x: String| #[trigger] owned(pl).count(x) > 0 ==> lookup(db, x@) is Some
}

proof fn lemma_split_marked(h: Seq<String>, m: Seq<int>, n: int)
    requires
        0 <= n <= h.len(),
    ensures
        unmarked(h, m, n).to_multiset().add(marked_desc(h, m, n).to_multiset()) =~= h.take(
            n,
        ).to_multiset(),
    decreases n,
{
    broadcast use vstd::seq_lib::group_to_multiset_ensures;
    broadcast use vstd::multiset::group_multiset_axioms;
    broadcast use vstd::seq_lib::lemma_multiset_commutative;

    if n == 0 {
        assert(h.take(0) =~= Seq::<String>::empty());
        assert(unmarked(h, m, 0) =~= Seq::<String>::empty());
        assert(marked_desc(h, m, 0) =~= Seq::<String>::empty());
    } else {
        lemma_split_marked(h, m, n - 1);
        assert(h.take(n) =~= h.take(n - 1).push(h[n - 1]));
        if m.contains(n - 1) {
            assert((seq![h[n - 1]] + marked_desc(h, m, n - 1)).to_multiset() =~= seq![
                h[n - 1],
            ].to_multiset().add(marked_desc(h, m, n - 1).to_multiset()));
            assert(seq![h[n - 1]].to_multiset() =~= Seq::<String>::empty().push(
                h[n - 1],
            ).to_multiset());
        }
    }
}

proof fn lemma_pay_owned(db: Seq<CardView>, pl: PlayerModel, cost: u8)
    ensures
        pay_model(db, pl, cost) matches Some(p2) ==> owned(p2) =~= owned(pl),
{
    broadcast use vstd::multiset::group_multiset_axioms;
    broadcast use vstd::seq_lib::lemma_multiset_commutative;

    if cost != 0 {
        let order = pay_order(db, pl.hand);
        let (k, got) = spend(db, pl.hand, order, cost as int, 0, 0);
        let m = order.take(k);
        lemma_split_marked(pl.hand, m, pl.hand.len() as int);
        assert(pl.hand.take(pl.hand.len() as int) =~= pl.hand);
    }
}

proof fn lemma_draw_owned(pl: PlayerModel)
    ensures
        owned(draw_model(pl)) =~= owned(pl),
{
    broadcast use vstd::seq_lib::group_to_multiset_ensures;
    broadcast use vstd::multiset::group_multiset_axioms;

    if pl.deck.len() > 0 {
        assert(pl.deck.drop_first() =~= pl.deck.remove(0));
    }
}

proof fn lemma_attack_owned<A0: Agent, A1: Agent>(
    g: GameModel,
    me: usize,
    card: CardView,
    a0: A0,
    a1: A1,
)
    requires
        me < 2,
        g.players.len() == 2,
    ensures
        owned(attack_model(g, me, card, a0, a1).0.players[0]) =~= owned(g.players[0]),
        owned(attack_model(g, me, card, a0, a1).0.players[1]) =~= owned(g.players[1]),
{
    broadcast use vstd::multiset::group_multiset_axioms;
    broadcast use vstd::seq_lib::lemma_multiset_commutative;

    let power: i32 = match card.power {
        Some(p) => p,
        None => 0,
    };
    let d = (1 - me) as usize;
    let dom = card.keywords.dominate;
    let (blocks, b0, b1) = if d == 0 {
        let (b, x) = a0.spec_blocks(g, d, power, dom);
        (b, x, a1)
    } else {
        let (b, x) = a1.spec_blocks(g, d, power, dom);
        (b, a0, x)
    };
    let dp = g.players[d as int];
    let n = dp.hand.len() as int;
    let marks = block_marks(blocks, n, dom);
    lemma_split_marked(dp.hand, marks, n);
    assert(dp.hand.take(n) =~= dp.hand);
    let total = marked_defense(g.db, dp.hand, marks, n);
    let dmg: int = if power - total > 0 {
        power - total
    } else {
        0
    };
    let dp2 = PlayerModel {
        hand: unmarked(dp.hand, marks, n),
        graveyard: dp.graveyard + marked_desc(dp.hand, marks, n),
        life: (dp.life - dmg) as i32,
        ..dp
    };
    assert(owned(dp2) =~= owned(dp));
    let g3 = set_player(g, d, dp2);
    let g4 = add_log(
        g3,
        attack_line(me, card.name, power, total as i32, dmg as i32, hit_mark(dmg > 0), d, dp2.life),
    );
    lemma_draw_owned(g4.players[me as int]);
    let r = attack_model(g, me, card, a0, a1).0;
    assert(r.players[0] == (#[trigger] r.players[0]));
    assert(r.players[1] == (#[trigger] r.players[1]));
}

/// Playing a card moves cards between a player's zones and never creates or
/// destroys one, as long as the played card is in the card pool (a card that is
/// not is dropped from the hand).
pub proof fn law_play_conserves<A0: Agent, A1: Agent>(
    g: GameModel,
    idx: usize,
    me: usize,
    a0: A0,
    a1: A1,
)
    requires
        me < 2,
        g.players.len() == 2,
        idx < g.players[me as int].hand.len() ==> lookup(
            g.db,
            g.players[me as int].hand[idx as int]@,
        ) is Some,
    ensures
        owned(play_model(g, idx, me, a0, a1).0.players[0]) =~= owned(g.players[0]),
        owned(play_model(g, idx, me, a0, a1).0.players[1]) =~= owned(g.players[1]),
{
    broadcast use vstd::seq_lib::group_to_multiset_ensures;
    broadcast use vstd::multiset::group_multiset_axioms;

    let pl = g.players[me as int];
    if idx < pl.hand.len() {
        let id = pl.hand[idx as int];
        let pl1 = PlayerModel { hand: pl.hand.remove(idx as int), ..pl };
        if let Some(card) = lookup(g.db, id@) {
            lemma_pay_owned(g.db, pl1, card.cost);
            if let Some(pl2) = pay_model(g.db, pl1, card.cost) {
                let g2 = set_player(g, me, pl2);
                let (g3, b0, b1) = if card_is_attack(card) {
                    attack_model(g2, me, card, a0, a1)
                } else {
                    (add_log(g2, non_attack_line(me, card.name)), a0, a1)
                };
                if card_is_attack(card) {
                    lemma_attack_owned(g2, me, card, a0, a1);
                }
                assert(owned(g3.players[me as int]) =~= owned(pl1));
                assert(owned(g3.players[1 - me]) =~= owned(g.players[1 - me]));
                let p3 = g3.players[me as int];
                let p4 = PlayerModel { graveyard: p3.graveyard.push(id), ..p3 };
                assert(owned(p4) =~= owned(p3).insert(id));
                assert(owned(pl1).insert(id) =~= owned(pl));
                let r = play_model(g, idx, me, a0, a1).0;
                assert(r.players[0] == (#[trigger] r.players[0]));
                assert(r.players[1] == (#[trigger] r.players[1]));
            }
        }
    }
}

/// The two heroes, with the same player's pieces, before and after.
pub open spec fn same_heroes(g: GameModel, r: GameModel) -> bool {
    forall|p: int|
        0 <= p < 2 ==> {
            &&& (#[trigger] r.players[p]).hero == g.players[p].hero
            &&& r.players[p].intellect == g.players[p].intellect
            &&& r.players[p].equipment == g.players[p].equipment
            &&& r.players[p].weapon == g.players[p].weapon
        }
}

/// Playing a card changes no hero, intellect, equipment or weapon.
pub proof fn law_play_keeps_heroes<A0: Agent, A1: Agent>(
    g: GameModel,
    idx: usize,
    me: usize,
    a0: A0,
    a1: A1,
)
    requires
        me < 2,
        g.players.len() == 2,
    ensures
        same_heroes(g, play_model(g, idx, me, a0, a1).0),
{
    let pl = g.players[me as int];
    if idx < pl.hand.len() {
        let id = pl.hand[idx as int];
        let pl1 = PlayerModel { hand: pl.hand.remove(idx as int), ..pl };
        if let Some(card) = lookup(g.db, id@) {
            lemma_pay_keeps(g.db, pl1, card.cost);
            if let Some(pl2) = pay_model(g.db, pl1, card.cost) {
                let g2 = set_player(g, me, pl2);
                assert(same_heroes(g, g2));
                let (g3, b0, b1) = if card_is_attack(card) {
                    attack_model(g2, me, card, a0, a1)
                } else {
                    (add_log(g2, non_attack_line(me, card.name)), a0, a1)
                };
                assert(same_heroes(g2, g3));
            }
        }
    }
}

/// An attack's on-hit draw: when the attack lowers the defender's life and the
/// card draws on a hit, the attacker's top deck card (if any) joins the end of
/// its hand; otherwise the attacker's hand and deck are untouched. The defender's
/// life never rises.
pub proof fn law_hit_draws<A0: Agent, A1: Agent>(
    g: GameModel,
    me: usize,
    card: CardView,
    a0: A0,
    a1: A1,
)
    requires
        me < 2,
        g.players.len() == 2,
        attack_ok(g, me, card, a0, a1),
    ensures
        ({
            let r = attack_model(g, me, card, a0, a1).0;
            let d = 1 - me;
            let pa = g.players[me as int];
            let qa = r.players[me as int];
            let hit = r.players[d].life < g.players[d].life;
            &&& r.players[d].life <= g.players[d].life
            &&& (hit && card.keywords.draws_on_hit && pa.deck.len() > 0) ==> qa.hand == pa.hand.push(
                pa.deck[0],
            ) && qa.deck == pa.deck.drop_first()
            &&& !(hit && card.keywords.draws_on_hit && pa.deck.len() > 0) ==> qa.hand == pa.hand
                && qa.deck == pa.deck
        }),
{
    let r = attack_model(g, me, card, a0, a1).0;
    let d = (1 - me) as usize;
    assert(r.players[me as int] == (#[trigger] r.players[me as int]));
    assert(r.players[d as int] == (#[trigger] r.players[d as int]));
}

/// What a play does to the player: a hand position out of range changes
/// nothing; an unknown card only leaves the hand; a known card that the rest of
/// the hand cannot pay for changes nothing; a paid card goes on top of the
/// graveyard, costs an action point unless it has `go again` (never below 0),
/// and leaves the player's life as it was.
pub proof fn law_play_effects<A0: Agent, A1: Agent>(
    g: GameModel,
    idx: usize,
    me: usize,
    a0: A0,
    a1: A1,
)
    requires
        me < 2,
        g.players.len() == 2,
    ensures
        ({
            let pl = g.players[me as int];
            let r = play_model(g, idx, me, a0, a1).0;
            let q = r.players[me as int];
            &&& idx >= pl.hand.len() ==> r == g
            &&& idx < pl.hand.len() && lookup(g.db, pl.hand[idx as int]@) is None ==> q.hand
                == pl.hand.remove(idx as int) && q.graveyard == pl.graveyard && r.players[1 - me]
                == g.players[1 - me]
            &&& idx < pl.hand.len() ==> match lookup(g.db, pl.hand[idx as int]@) {
                None => true,
                Some(c) => match pay_model(
                    g.db,
                    (PlayerModel { hand: pl.hand.remove(idx as int), ..pl }),
                    c.cost,
                ) {
                    None => r == g,
                    Some(_) => {
                        &&& q.graveyard == pl.graveyard.push(pl.hand[idx as int])
                        &&& q.action_points == if c.keywords.go_again {
                            pl.action_points as int
                        } else if pl.action_points > 0 {
                            pl.action_points - 1
                        } else {
                            0
                        }
                        &&& q.life == pl.life
                    },
                },
            }
        }),
{
    let pl = g.players[me as int];
    if idx < pl.hand.len() {
        let id = pl.hand[idx as int];
        let pl1 = PlayerModel { hand: pl.hand.remove(idx as int), ..pl };
        match lookup(g.db, id@) {
            None => {
                let r = play_model(g, idx, me, a0, a1).0;
                assert(r.players[me as int] == pl1);
                assert(r.players[1 - me] == g.players[1 - me]);
            },
            Some(card) => {
                if let Some(pl2) = pay_model(g.db, pl1, card.cost) {
                    assert(pl2.graveyard == pl.graveyard && pl2.action_points == pl.action_points
                        && pl2.life == pl.life);
                    let g2 = set_player(g, me, pl2);
                    let (g3, b0, b1) = if card_is_attack(card) {
                        attack_model(g2, me, card, a0, a1)
                    } else {
                        (add_log(g2, non_attack_line(me, card.name)), a0, a1)
                    };
                    let p3 = g3.players[me as int];
                    assert(p3.graveyard == pl.graveyard && p3.action_points == pl.action_points
                        && p3.life == pl.life);
                    let r = play_model(g, idx, me, a0, a1).0;
                    assert(r.players[me as int].graveyard == p3.graveyard.push(id));
                }
            },
        }
    }
}

/// Total defense of the cards `s`, as the card pool gives it.
pub open spec fn defense_sum(db: Seq<CardView>, s: Seq<String>) -> int
    decreases s.len(),
{
    if s.len() == 0 {
        0
    } else {
        defense_of(db, s[0]) + defense_sum(db, s.skip(1))
    }
}

proof fn lemma_marked_sum(db: Seq<CardView>, h: Seq<String>, m: Seq<int>, n: int)
    requires
        0 <= n <= h.len(),
    ensures
        marked_defense(db, h, m, n) == defense_sum(db, marked_desc(h, m, n)),
    decreases n,
{
    if n > 0 {
        lemma_marked_sum(db, h, m, n - 1);
        if m.contains(n - 1) {
            let t = marked_desc(h, m, n - 1);
            assert((seq![h[n - 1]] + t).skip(1) =~= t);
            assert((seq![h[n - 1]] + t)[0] == h[n - 1]);
        }
    } else {
        assert(marked_desc(h, m, n).len() == 0);
    }
}

proof fn lemma_marked_at_most_one(h: Seq<String>, m: Seq<int>, n: int)
    requires
        0 <= n,
        m.len() <= 1,
    ensures
        marked_desc(h, m, n).len() <= 1,
        m.len() == 0 || m[0] >= n ==> marked_desc(h, m, n).len() == 0,
    decreases n,
{
    if n > 0 {
        lemma_marked_at_most_one(h, m, n - 1);
        if m.contains(n - 1) {
            assert(m[0] == n - 1);
        }
    }
}

/// Blocking resolves as the original rules say: the defender's graveyard gains
/// cards that left its hand (and nothing else changes between the two), at most
/// one under `dominate`; and its life falls by exactly the attack's power beyond
/// the total defense of those cards, or not at all.
pub proof fn law_blocks_and_damage<A0: Agent, A1: Agent>(
    g: GameModel,
    me: usize,
    card: CardView,
    a0: A0,
    a1: A1,
)
    requires
        me < 2,
        g.players.len() == 2,
        attack_ok(g, me, card, a0, a1),
    ensures
        ({
            let d = 1 - me;
            let p = g.players[d];
            let q = attack_model(g, me, card, a0, a1).0.players[d];
            let moved = q.graveyard.skip(p.graveyard.len() as int);
            let beyond = attack_power(card) - defense_sum(g.db, moved);
            &&& p.graveyard.len() <= q.graveyard.len()
            &&& q.graveyard.take(p.graveyard.len() as int) == p.graveyard
            &&& q.hand.to_multiset().add(moved.to_multiset()) == p.hand.to_multiset()
            &&& card.keywords.dominate ==> moved.len() <= 1
            &&& q.life == p.life - if beyond > 0 {
                beyond
            } else {
                0
            }
        }),
{
    let d = (1 - me) as usize;
    let p = g.players[d as int];
    let power = attack_power(card);
    let dom = card.keywords.dominate;
    let blocks = if d == 0 {
        a0.spec_blocks(g, d, power, dom).0
    } else {
        a1.spec_blocks(g, d, power, dom).0
    };
    let n = p.hand.len() as int;
    let marks = block_marks(blocks, n, dom);
    let md = marked_desc(p.hand, marks, n);
    let r = attack_model(g, me, card, a0, a1).0;
    let q = r.players[d as int];
    assert(q.graveyard == p.graveyard + md);
    assert(q.graveyard.skip(p.graveyard.len() as int) =~= md);
    assert(q.graveyard.take(p.graveyard.len() as int) =~= p.graveyard);
    lemma_split_marked(p.hand, marks, n);
    assert(p.hand.take(n) =~= p.hand);
    lemma_marked_sum(g.db, p.hand, marks, n);
    if dom {
        assert(marks.len() <= 1);
        lemma_marked_at_most_one(p.hand, marks, n);
    }
}

proof fn lemma_end_turn_owned(g: GameModel)
    requires
        g.active < 2,
        g.players.len() == 2,
    ensures
        owned(end_turn_model(g).players[0]) =~= owned(g.players[0]),
        owned(end_turn_model(g).players[1]) =~= owned(g.players[1]),
{
    broadcast use vstd::multiset::group_multiset_axioms;
    broadcast use vstd::seq_lib::lemma_multiset_commutative;

    let p = g.active;
    let pl = g.players[p as int];
    let deck = pl.deck + pl.pitch;
    let need: int = if pl.hand.len() < pl.intellect {
        pl.intellect - pl.hand.len()
    } else {
        0
    };
    let k: int = if need < deck.len() {
        need
    } else {
        deck.len() as int
    };
    assert(deck.take(k) + deck.skip(k) =~= deck);
    broadcast use vstd::seq_lib::group_to_multiset_ensures;

    vstd::multiset::lemma_multiset_empty_len(Seq::<String>::empty().to_multiset());
    assert(Seq::<String>::empty().to_multiset() =~= Multiset::<String>::empty());
    assert(deck.to_multiset() =~= deck.take(k).to_multiset().add(deck.skip(k).to_multiset()));
    assert(deck.to_multiset() =~= pl.deck.to_multiset().add(pl.pitch.to_multiset()));
    let pl2 = PlayerModel {
        deck: deck.skip(k),
        hand: pl.hand + deck.take(k),
        pitch: Seq::empty(),
        ..pl
    };
    assert((pl.hand + deck.take(k)).to_multiset() =~= pl.hand.to_multiset().add(
        deck.take(k).to_multiset(),
    ));
    assert forall|x: String| #[trigger] owned(pl2).count(x) == owned(pl).count(x) by {
        assert(deck.to_multiset().count(x) == deck.take(k).to_multiset().count(x) + deck.skip(
            k,
        ).to_multiset().count(x));
        assert(deck.to_multiset().count(x) == pl.deck.to_multiset().count(x)
            + pl.pitch.to_multiset().count(x));
        assert(Seq::<String>::empty().to_multiset().count(x) == 0);
    }
    assert(owned(pl2) =~= owned(pl));
    let r = end_turn_model(g);
    assert(r.players[0] == (#[trigger] r.players[0]));
    assert(r.players[1] == (#[trigger] r.players[1]));
}

proof fn lemma_hand_owned(pl: PlayerModel, i: int)
    requires
        0 <= i < pl.hand.len(),
    ensures
        owned(pl).count(pl.hand[i]) > 0,
{
    broadcast use vstd::seq_lib::group_to_multiset_ensures;
    broadcast use vstd::multiset::group_multiset_axioms;

    assert(pl.hand.contains(pl.hand[i]));
}

proof fn lemma_phase_owned<A0: Agent, A1: Agent>(g: GameModel, a0: A0, a1: A1, done: int)
    requires
        game_shaped(g),
        all_known(g.db, g.players[0]),
        all_known(g.db, g.players[1]),
    ensures
        owned(action_phase(g, a0, a1, done).1.players[0]) =~= owned(g.players[0]),
        owned(action_phase(g, a0, a1, done).1.players[1]) =~= owned(g.players[1]),
    decreases 100 - done,
{
    if done < 100 {
        let (act, x0, x1) = chosen_action(g, a0, a1);
        if let Action::Play(i) = act {
            let pl = g.players[g.active as int];
            if i < pl.hand.len() {
                lemma_hand_owned(pl, i as int);
                assert(g.players[g.active as int] == (#[trigger] g.players[g.active as int]));
            }
            lemma_play_keeps(g, i, g.active, x0, x1);
            law_play_conserves(g, i, g.active, x0, x1);
            let (g2, y0, y1) = play_model(g, i, g.active, x0, x1);
            if !(winner(g2) is Some) && g2.players[g.active as int].action_points != 0 {
                assert forall|x: String| #[trigger] owned(g2.players[0]).count(x) > 0 implies lookup(
                    g2.db,
                    x@,
                ) is Some by {
                    assert(owned(g.players[0]).count(x) > 0);
                }
                assert forall|x: String| #[trigger] owned(g2.players[1]).count(x) > 0 implies lookup(
                    g2.db,
                    x@,
                ) is Some by {
                    assert(owned(g.players[1]).count(x) > 0);
                }
                lemma_phase_owned(g2, y0, y1, done + 1);
            }
        }
    }
}

proof fn lemma_turn_owned<A0: Agent, A1: Agent>(g: GameModel, a0: A0, a1: A1)
    requires
        game_shaped(g),
        all_known(g.db, g.players[0]),
        all_known(g.db, g.players[1]),
    ensures
        owned(turn_model(g, a0, a1).0.players[0]) =~= owned(g.players[0]),
        owned(turn_model(g, a0, a1).0.players[1]) =~= owned(g.players[1]),
{
    reveal(turn_model);
    let p = g.active;
    let pl = g.players[p as int];
    let g1 = GameModel {
        turn: (g.turn + 1) as u32,
        ..set_player(g, p, PlayerModel { action_points: 1, ..pl })
    };
    let g2 = add_log(g1, turn_line(g1.turn, p, pl.hero@, pl.life, g.players[1 - p].life));
    assert(g2.players[0] == (#[trigger] g2.players[0]));
    assert(g2.players[1] == (#[trigger] g2.players[1]));
    assert(owned(g2.players[0]) =~= owned(g.players[0]));
    assert(owned(g2.players[1]) =~= owned(g.players[1]));
    assert(game_shaped(g2));
    lemma_phase_keeps(g2, a0, a1, 0);
    lemma_phase_owned(g2, a0, a1, 0);
    let g3 = action_phase(g2, a0, a1, 0).1;
    lemma_end_turn_owned(g3);
}

/// Over a whole game no card is created or lost: at the end each player owns
/// (across deck, hand, pitch zone, graveyard and arsenal) exactly the cards it
/// started with, as long as every card it owns is in the card pool.
pub proof fn law_cards_conserved<A0: Agent, A1: Agent>(g: GameModel, a0: A0, a1: A1, fuel: nat)
    requires
        game_shaped(g),
        all_known(g.db, g.players[0]),
        all_known(g.db, g.players[1]),
    ensures
        run_model(g, a0, a1, fuel) matches Some(res) ==> owned(res.1.players[0]) == owned(
            g.players[0],
        ) && owned(res.1.players[1]) == owned(g.players[1]),
    decreases fuel,
{
    if fuel > 0 && !(winner(g) is Some) && g.turn < g.max_turns {
        if passive_out(g.players[g.active as int]) {
            let h = GameModel { active: (1 - g.active) as usize, ..g };
            law_cards_conserved(h, a0, a1, (fuel - 1) as nat);
        } else if !exhausted(g.players[g.active as int]) {
            lemma_turn_keeps(g, a0, a1);
            lemma_turn_owned(g, a0, a1);
            let (g2, b0, b1) = turn_model(g, a0, a1);
            assert forall|x: String| #[trigger] owned(g2.players[0]).count(x) > 0 implies lookup(
                g2.db,
                x@,
            ) is Some by {
                assert(owned(g.players[0]).count(x) > 0);
            }
            assert forall|x: String| #[trigger] owned(g2.players[1]).count(x) > 0 implies lookup(
                g2.db,
                x@,
            ) is Some by {
                assert(owned(g.players[1]).count(x) > 0);
            }
            law_cards_conserved(g2, b0, b1, (fuel - 1) as nat);
        }
    }
}

// ---------------------------------------------------------------------------
// Paying for legal plays
// ---------------------------------------------------------------------------

/// Total pitch of the hand cards at the positions in `order`.
pub open spec fn order_pitch(db: Seq<CardView>, hand: Seq<String>, order: Seq<int>) -> int
    decreases order.len(),
{
    if order.len() == 0 {
        0
    } else {
        order_pitch(db, hand, order.drop_last()) + pitch_of(db, hand[order.last()])
    }
}

proof fn lemma_order_pitch_append(db: Seq<CardView>, hand: Seq<String>, a: Seq<int>, b: Seq<int>)
    ensures
        order_pitch(db, hand, a + b) == order_pitch(db, hand, a) + order_pitch(db, hand, b),
    decreases b.len(),
{
    if b.len() == 0 {
        assert(a + b =~= a);
    } else {
        lemma_order_pitch_append(db, hand, a, b.drop_last());
        assert((a + b).drop_last() =~= a + b.drop_last());
    }
}

proof fn lemma_pitch_range(db: Seq<CardView>, id: String)
    ensures
        0 <= pitch_of(db, id) <= 3,
{
}

proof fn lemma_pay_order_total(db: Seq<CardView>, hand: Seq<String>, n: int)
    requires
        0 <= n <= hand.len(),
    ensures
        order_pitch(db, hand, idx_with_pitch(db, hand, 3, n)) + order_pitch(
            db,
            hand,
            idx_with_pitch(db, hand, 2, n),
        ) + order_pitch(db, hand, idx_with_pitch(db, hand, 1, n)) == pitch_sum_excluding(
            db,
            hand,
            -1,
            n,
        ),
    decreases n,
{
    if n > 0 {
        lemma_pay_order_total(db, hand, n - 1);
        lemma_pitch_range(db, hand[n - 1]);
        let v = pitch_of(db, hand[n - 1]);
        assert forall|w: int| 1 <= w <= 3 implies #[trigger] order_pitch(
            db,
            hand,
            idx_with_pitch(db, hand, w, n),
        ) == order_pitch(db, hand, idx_with_pitch(db, hand, w, n - 1)) + if v == w {
            v
        } else {
            0
        } by {
            if v == w {
                let r = idx_with_pitch(db, hand, w, n - 1);
                assert(r.push(n - 1).drop_last() =~= r);
            }
        }
        assert(order_pitch(db, hand, idx_with_pitch(db, hand, 3, n)) == order_pitch(
            db,
            hand,
            idx_with_pitch(db, hand, 3, n - 1),
        ) + if v == 3 {
            v
        } else {
            0
        });
        assert(order_pitch(db, hand, idx_with_pitch(db, hand, 2, n)) == order_pitch(
            db,
            hand,
            idx_with_pitch(db, hand, 2, n - 1),
        ) + if v == 2 {
            v
        } else {
            0
        });
        assert(order_pitch(db, hand, idx_with_pitch(db, hand, 1, n)) == order_pitch(
            db,
            hand,
            idx_with_pitch(db, hand, 1, n - 1),
        ) + if v == 1 {
            v
        } else {
            0
        });
    }
}

proof fn lemma_spend_reaches(
    db: Seq<CardView>,
    hand: Seq<String>,
    order: Seq<int>,
    cost: int,
    k: int,
    got: int,
)
    requires
        0 <= k <= order.len(),
        got == order_pitch(db, hand, order.take(k)),
    ensures
        spend(db, hand, order, cost, k, got).1 >= cost || spend(db, hand, order, cost, k, got).1
            == order_pitch(db, hand, order),
    decreases order.len() - k,
{
    if k < order.len() && got < cost {
        assert(order.take(k + 1).drop_last() =~= order.take(k));
        lemma_spend_reaches(db, hand, order, cost, k + 1, got + pitch_of(db, hand[order[k]]));
    } else if k >= order.len() {
        assert(order.take(k) =~= order);
    }
}

proof fn lemma_excluding_remove(db: Seq<CardView>, hand: Seq<String>, i: int, n: int)
    requires
        0 <= i < hand.len(),
        0 <= n <= hand.len(),
    ensures
        pitch_sum_excluding(db, hand, i, n) == pitch_sum_excluding(
            db,
            hand.remove(i),
            -1,
            if n <= i {
                n
            } else {
                n - 1
            },
        ),
    decreases n,
{
    if n > 0 {
        lemma_excluding_remove(db, hand, i, n - 1);
        if n - 1 > i {
            assert(hand.remove(i)[n - 2] == hand[n - 1]);
        } else if n - 1 < i {
            assert(hand.remove(i)[n - 1] == hand[n - 1]);
        }
    }
}

/// Total pitch of the cards `s`, as the card pool gives it (0 for an unknown card).
pub open spec fn total_pitch(db: Seq<CardView>, s: Seq<String>) -> int
    decreases s.len(),
{
    if s.len() == 0 {
        0
    } else {
        total_pitch(db, s.drop_last()) + match lookup(db, s.last()@) {
            Some(c) => card_pitch(c) as int,
            None => 0,
        }
    }
}

proof fn lemma_total_pitch(db: Seq<CardView>, s: Seq<String>, n: int)
    requires
        0 <= n <= s.len(),
    ensures
        pitch_sum_excluding(db, s, -1, n) == total_pitch(db, s.take(n)),
    decreases n,
{
    if n > 0 {
        lemma_total_pitch(db, s, n - 1);
        assert(s.take(n).drop_last() =~= s.take(n - 1));
        assert(s.take(n).last() == s[n - 1]);
    }
}

proof fn lemma_legal_upto_plays(g: GameModel, n: int, i: usize)
    requires
        0 <= n <= usize::MAX,
    ensures
        legal_upto(g, n).contains(Action::Play(i)) <==> (i < n && playable(g, i as int)),
    decreases n,
{
    if n > 0 {
        lemma_legal_upto_plays(g, n - 1, i);
        let r = legal_upto(g, n - 1);
        if playable(g, n - 1) {
            let t = r.push(Action::Play((n - 1) as usize));
            assert(legal_upto(g, n) == t);
            assert(t[r.len() as int] == Action::Play((n - 1) as usize));
            if i == n - 1 {
                assert(t.contains(Action::Play(i)));
            } else {
                if t.contains(Action::Play(i)) {
                    let k = choose|k: int| 0 <= k < t.len() && t[k] == Action::Play(i);
                    if k == r.len() {
                        assert(Action::Play(i) == Action::Play((n - 1) as usize));
                    }
                    assert(r[k] == Action::Play(i));
                    assert(r.contains(Action::Play(i)));
                }
                if r.contains(Action::Play(i)) {
                    let k = choose|k: int| 0 <= k < r.len() && r[k] == Action::Play(i);
                    assert(t[k] == Action::Play(i));
                }
            }
        } else {
            assert(legal_upto(g, n) == r);
        }
    } else {
        assert(legal_upto(g, n) =~= seq![Action::EndTurn]);
        if legal_upto(g, n).contains(Action::Play(i)) {
            let k = choose|k: int|
                0 <= k < legal_upto(g, n).len() && legal_upto(g, n)[k] == Action::Play(i);
            assert(legal_upto(g, n)[k] == Action::EndTurn);
        }
    }
}

/// The hand position an action plays, or -1 for `EndTurn`.
pub open spec fn played_index(a: Action) -> int {
    match a {
        Action::Play(i) => i as int,
        Action::EndTurn => -1,
    }
}

proof fn lemma_legal_upto_order(g: GameModel, n: int)
    requires
        0 <= n <= usize::MAX,
    ensures
        ({
            let l = legal_upto(g, n);
            &&& l.len() >= 1
            &&& l[0] == Action::EndTurn
            &&& forall|a: int| 1 <= a < l.len() ==> 0 <= played_index(#[trigger] l[a]) < n
            &&& forall|a: int, b: int|
                1 <= a < b < l.len() ==> played_index(#[trigger] l[a]) < played_index(#[trigger] l[b])
        }),
    decreases n,
{
    if n > 0 {
        lemma_legal_upto_order(g, n - 1);
        let r = legal_upto(g, n - 1);
        if playable(g, n - 1) {
            let l = r.push(Action::Play((n - 1) as usize));
            assert(legal_upto(g, n) == l);
            assert forall|a: int| 1 <= a < l.len() implies 0 <= played_index(#[trigger] l[a]) < n by {
                if a < r.len() {
                    assert(l[a] == r[a]);
                }
            }
            assert forall|a: int, b: int| 1 <= a < b < l.len() implies played_index(
                #[trigger] l[a],
            ) < played_index(#[trigger] l[b]) by {
                assert(l[a] == r[a]);
                if b < r.len() {
                    assert(l[b] == r[b]);
                }
            }
        }
    }
}

/// The legal actions come in a fixed order: `EndTurn` first, then the plays by
/// strictly ascending hand position, each within the hand.
pub proof fn law_legal_order(g: GameModel)
    requires
        g.players[g.active as int].hand.len() <= usize::MAX,
    ensures
        legal(g).len() >= 1,
        legal(g)[0] == Action::EndTurn,
        forall|a: int|
            1 <= a < legal(g).len() ==> 0 <= played_index(#[trigger] legal(g)[a])
                < g.players[g.active as int].hand.len(),
        forall|a: int, b: int|
            1 <= a < b < legal(g).len() ==> played_index(#[trigger] legal(g)[a]) < played_index(
                #[trigger] legal(g)[b],
            ),
{
    lemma_legal_upto_order(g, g.players[g.active as int].hand.len() as int);
}

/// The legal plays of the active player, exactly: hand card `i` is offered if and
/// only if it is a known card that is an action, an instant or an attack; it has
/// an action point left when it is an action or an attack; and its cost is at
/// most the total pitch of the rest of the hand.
pub proof fn law_legal_plays_exact(g: GameModel, i: usize)
    requires
        g.active < 2,
        g.players.len() == 2,
        g.players[g.active as int].hand.len() <= usize::MAX,
    ensures
        legal(g).contains(Action::Play(i)) <==> ({
            let pl = g.players[g.active as int];
            &&& i < pl.hand.len()
            &&& lookup(g.db, pl.hand[i as int]@) matches Some(c) && {
                &&& (c.types.len() > 0 && (c.types[0] == CardType::Action || c.types[0]
                    == CardType::Instant)) || card_is_attack(c)
                &&& (c.types.contains(CardType::Action) || card_is_attack(c)) ==> pl.action_points
                    > 0
                &&& c.cost as int <= total_pitch(g.db, pl.hand.remove(i as int))
            }
        }),
{
    let pl = g.players[g.active as int];
    lemma_legal_upto_plays(g, pl.hand.len() as int, i);
    if i < pl.hand.len() {
        lemma_excluding_remove(g.db, pl.hand, i as int, pl.hand.len() as int);
        lemma_total_pitch(g.db, pl.hand.remove(i as int), pl.hand.len() - 1);
        assert(pl.hand.remove(i as int).take(pl.hand.len() - 1) =~= pl.hand.remove(i as int));
    }
}

/// A card that `legal_actions` offers can always be paid for: once it leaves the
/// hand, pitching from the rest of the hand covers its cost.
pub proof fn law_legal_play_is_paid(g: GameModel, i: int)
    requires
        g.active < 2,
        g.players.len() == 2,
        0 <= i < g.players[g.active as int].hand.len(),
        playable(g, i),
    ensures
        ({
            let pl = g.players[g.active as int];
            let card = lookup(g.db, pl.hand[i]@)->0;
            pay_model(g.db, PlayerModel { hand: pl.hand.remove(i), ..pl }, card.cost) is Some
        }),
{
    let pl = g.players[g.active as int];
    let card = lookup(g.db, pl.hand[i]@)->0;
    let h = pl.hand.remove(i);
    lemma_excluding_remove(g.db, pl.hand, i, pl.hand.len() as int);
    if card.cost != 0 {
        let order = pay_order(g.db, h);
        lemma_pay_order_total(g.db, h, h.len() as int);
        let a = idx_with_pitch(g.db, h, 3, h.len() as int);
        let b = idx_with_pitch(g.db, h, 2, h.len() as int);
        let c = idx_with_pitch(g.db, h, 1, h.len() as int);
        lemma_order_pitch_append(g.db, h, a + b, c);
        lemma_order_pitch_append(g.db, h, a, b);
        assert(order.take(0) =~= Seq::<int>::empty());
        lemma_spend_reaches(g.db, h, order, card.cost as int, 0, 0);
    }
}

/// At the end of a turn the hand is refilled up to intellect (as far as deck
/// and pitch zone allow), the pitch zone is emptied, and the pitched cards go to
/// the bottom of the deck in the order they were pitched, below what is left of
/// the deck.
pub proof fn law_end_turn_refill(g: GameModel)
    requires
        g.active < 2,
        g.players.len() == 2,
    ensures
        ({
            let p = g.active as int;
            let pl = g.players[p];
            let r = end_turn_model(g).players[p];
            let avail = pl.deck.len() + pl.pitch.len();
            &&& r.hand.len() == if pl.hand.len() >= pl.intellect {
                pl.hand.len() as int
            } else if pl.intellect - pl.hand.len() <= avail {
                pl.intellect as int
            } else {
                (pl.hand.len() + avail) as int
            }
            &&& r.hand.take(pl.hand.len() as int) == pl.hand
            &&& r.pitch.len() == 0
            &&& r.deck.len() >= pl.pitch.len() ==> r.deck.skip(r.deck.len() - pl.pitch.len())
                == pl.pitch
            &&& end_turn_model(g).active == 1 - g.active
        }),
{
    let p = g.active as int;
    let pl = g.players[p];
    let deck = pl.deck + pl.pitch;
    let need: int = if pl.hand.len() < pl.intellect {
        pl.intellect - pl.hand.len()
    } else {
        0
    };
    let k: int = if need < deck.len() {
        need
    } else {
        deck.len() as int
    };
    let r = end_turn_model(g).players[p];
    assert(r.hand =~= pl.hand + deck.take(k));
    assert(r.hand.take(pl.hand.len() as int) =~= pl.hand);
    if r.deck.len() >= pl.pitch.len() {
        assert(r.deck.skip(r.deck.len() - pl.pitch.len()) =~= pl.pitch);
    }
}

/// How many of the first `n` hand positions a choice marks.
pub open spec fn mask_size(mask: Seq<bool>, n: int) -> int
    decreases n,
{
    if n <= 0 {
        0
    } else {
        mask_size(mask, n - 1) + if mask[n - 1] {
            1int
        } else {
            0int
        }
    }
}

/// Total pitch of the marked cards among the first `n` hand positions.
pub open spec fn mask_pitch(db: Seq<CardView>, hand: Seq<String>, mask: Seq<bool>, n: int) -> int
    decreases n,
{
    if n <= 0 {
        0
    } else {
        mask_pitch(db, hand, mask, n - 1) + if mask[n - 1] {
            pitch_of(db, hand[n - 1])
        } else {
            0
        }
    }
}

/// Marked cards among the first `n` positions that pitch for `v`.
spec fn mask_count(db: Seq<CardView>, hand: Seq<String>, mask: Seq<bool>, v: int, n: int) -> int
    decreases n,
{
    if n <= 0 {
        0
    } else {
        mask_count(db, hand, mask, v, n - 1) + if mask[n - 1] && pitch_of(db, hand[n - 1]) == v {
            1int
        } else {
            0int
        }
    }
}

proof fn lemma_mask_counts(db: Seq<CardView>, hand: Seq<String>, mask: Seq<bool>, n: int)
    requires
        0 <= n <= hand.len(),
        mask.len() == hand.len(),
    ensures
        mask_pitch(db, hand, mask, n) == 3 * mask_count(db, hand, mask, 3, n) + 2 * mask_count(
            db,
            hand,
            mask,
            2,
            n,
        ) + mask_count(db, hand, mask, 1, n),
        mask_size(mask, n) >= mask_count(db, hand, mask, 3, n) + mask_count(
            db,
            hand,
            mask,
            2,
            n,
        ) + mask_count(db, hand, mask, 1, n),
        mask_count(db, hand, mask, 3, n) <= idx_with_pitch(db, hand, 3, n).len(),
        mask_count(db, hand, mask, 2, n) <= idx_with_pitch(db, hand, 2, n).len(),
        mask_count(db, hand, mask, 1, n) <= idx_with_pitch(db, hand, 1, n).len(),
        mask_count(db, hand, mask, 3, n) >= 0,
        mask_count(db, hand, mask, 2, n) >= 0,
        mask_count(db, hand, mask, 1, n) >= 0,
    decreases n,
{
    if n > 0 {
        lemma_mask_counts(db, hand, mask, n - 1);
        lemma_pitch_range(db, hand[n - 1]);
    }
}

proof fn lemma_idx_values(db: Seq<CardView>, hand: Seq<String>, v: int, n: int)
    requires
        0 <= n <= hand.len(),
    ensures
        forall|t: int|
            0 <= t < idx_with_pitch(db, hand, v, n).len() ==> 0 <= #[trigger] idx_with_pitch(
                db,
                hand,
                v,
                n,
            )[t] < n && pitch_of(db, hand[idx_with_pitch(db, hand, v, n)[t]]) == v,
    decreases n,
{
    if n > 0 {
        lemma_idx_values(db, hand, v, n - 1);
        let r = idx_with_pitch(db, hand, v, n - 1);
        let q = idx_with_pitch(db, hand, v, n);
        assert forall|t: int| 0 <= t < q.len() implies 0 <= #[trigger] q[t] < n && pitch_of(
            db,
            hand[q[t]],
        ) == v by {
            if t < r.len() {
                assert(q[t] == r[t]);
            }
        }
    }
}

proof fn lemma_constant_prefix(db: Seq<CardView>, hand: Seq<String>, v: int, n: int, j: int)
    requires
        0 <= n <= hand.len(),
        0 <= j <= idx_with_pitch(db, hand, v, n).len(),
    ensures
        order_pitch(db, hand, idx_with_pitch(db, hand, v, n).take(j)) == v * j,
    decreases j,
{
    let a = idx_with_pitch(db, hand, v, n);
    if j > 0 {
        lemma_constant_prefix(db, hand, v, n, j - 1);
        lemma_idx_values(db, hand, v, n);
        assert(a.take(j).drop_last() =~= a.take(j - 1));
        assert(a.take(j).last() == a[j - 1]);
    } else {
        assert(a.take(0) =~= Seq::<int>::empty());
    }
}

proof fn lemma_prefix_monotone(db: Seq<CardView>, hand: Seq<String>, order: Seq<int>, m: int, m2: int)
    requires
        0 <= m <= m2 <= order.len(),
    ensures
        order_pitch(db, hand, order.take(m)) <= order_pitch(db, hand, order.take(m2)),
    decreases m2 - m,
{
    if m < m2 {
        lemma_prefix_monotone(db, hand, order, m, m2 - 1);
        assert(order.take(m2).drop_last() =~= order.take(m2 - 1));
        lemma_pitch_range(db, hand[order[m2 - 1]]);
    }
}

proof fn lemma_spend_stops(
    db: Seq<CardView>,
    hand: Seq<String>,
    order: Seq<int>,
    cost: int,
    k: int,
    got: int,
)
    requires
        0 <= k <= order.len(),
        got == order_pitch(db, hand, order.take(k)),
    ensures
        ({
            let r = spend(db, hand, order, cost, k, got);
            &&& k <= r.0 <= order.len()
            &&& r.1 == order_pitch(db, hand, order.take(r.0))
            &&& r.0 > k ==> order_pitch(db, hand, order.take(r.0 - 1)) < cost
        }),
    decreases order.len() - k,
{
    if k < order.len() && got < cost {
        assert(order.take(k + 1).drop_last() =~= order.take(k));
        lemma_spend_stops(db, hand, order, cost, k + 1, got + pitch_of(db, hand[order[k]]));
    }
}

/// Paying pitches the fewest cards that can cover the cost: when a payment
/// succeeds after pitching `k` cards, every choice of fewer than `k` hand cards
/// pitches for less than the cost; when it fails, no choice of hand cards at all
/// covers it.
pub proof fn law_fewest_cards_pitched(db: Seq<CardView>, hand: Seq<String>, cost: u8, mask: Seq<bool>)
    requires
        cost > 0,
        mask.len() == hand.len(),
    ensures
        ({
            let (k, got) = spend(db, hand, pay_order(db, hand), cost as int, 0, 0);
            &&& got >= cost && mask_size(mask, hand.len() as int) < k ==> mask_pitch(
                db,
                hand,
                mask,
                hand.len() as int,
            ) < cost
            &&& got < cost ==> mask_pitch(db, hand, mask, hand.len() as int) < cost
        }),
{
    let n = hand.len() as int;
    let order = pay_order(db, hand);
    let a = idx_with_pitch(db, hand, 3, n);
    let b = idx_with_pitch(db, hand, 2, n);
    let c = idx_with_pitch(db, hand, 1, n);
    assert(order.take(0) =~= Seq::<int>::empty());
    lemma_spend_stops(db, hand, order, cost as int, 0, 0);
    let (k, got) = spend(db, hand, order, cost as int, 0, 0);
    lemma_mask_counts(db, hand, mask, n);
    let a3 = mask_count(db, hand, mask, 3, n);
    let a2 = mask_count(db, hand, mask, 2, n);
    let a1 = mask_count(db, hand, mask, 1, n);
    let m = a3 + a2 + a1;
    // the best `m` cards of the pay order
    lemma_constant_prefix(db, hand, 3, n, a.len() as int);
    lemma_constant_prefix(db, hand, 2, n, b.len() as int);
    lemma_constant_prefix(db, hand, 1, n, c.len() as int);
    assert(a.take(a.len() as int) =~= a);
    assert(b.take(b.len() as int) =~= b);
    assert(c.take(c.len() as int) =~= c);
    lemma_order_pitch_append(db, hand, a + b, c);
    lemma_order_pitch_append(db, hand, a, b);
    let top = if m <= a.len() {
        lemma_constant_prefix(db, hand, 3, n, m);
        assert(order.take(m) =~= a.take(m));
        3 * m
    } else if m <= a.len() + b.len() {
        let j = m - a.len();
        lemma_constant_prefix(db, hand, 2, n, j);
        assert(order.take(m) =~= a + b.take(j));
        lemma_order_pitch_append(db, hand, a, b.take(j));
        3 * a.len() + 2 * j
    } else if m <= order.len() {
        let j = m - a.len() - b.len();
        lemma_constant_prefix(db, hand, 1, n, j);
        assert(order.take(m) =~= (a + b) + c.take(j));
        lemma_order_pitch_append(db, hand, a + b, c.take(j));
        3 * a.len() + 2 * b.len() + j
    } else {
        0
    };
    assert(m <= order.len());
    assert(order_pitch(db, hand, order.take(m)) == top);
    assert(mask_pitch(db, hand, mask, n) <= top);
    if got >= cost && mask_size(mask, n) < k {
        lemma_prefix_monotone(db, hand, order, m, k - 1);
    }
    if got < cost {
        lemma_prefix_monotone(db, hand, order, m, order.len() as int);
        assert(order.take(order.len() as int) =~= order);
        lemma_spend_reaches(db, hand, order, cost as int, 0, 0);
    }
}

proof fn lemma_unmarked_len(hand: Seq<String>, marks: Seq<int>, n: int)
    ensures
        unmarked(hand, marks, n).len() <= if n < 0 {
            0
        } else {
            n
        },
    decreases n,
{
    if n > 0 {
        lemma_unmarked_len(hand, marks, n - 1);
    }
}

proof fn lemma_push_contains(s: Seq<int>, x: int, i: int)
    ensures
        s.push(x).contains(i) == (s.contains(i) || x == i),
{
    if s.contains(i) {
        let k = choose|k: int| 0 <= k < s.len() && s[k] == i;
        assert(s.push(x)[k] == i);
    }
    if x == i {
        assert(s.push(x)[s.len() as int] == i);
    }
    if s.push(x).contains(i) {
        let k = choose|k: int| 0 <= k < s.push(x).len() && s.push(x)[k] == i;
        if k < s.len() {
            assert(s[k] == i);
        }
    }
}

proof fn lemma_set_twice(g: GameModel, p: usize, a: PlayerModel, b: PlayerModel)
    requires
        p < g.players.len(),
    ensures
        set_player(set_player(g, p, a), p, b) =~= set_player(g, p, b),
        set_player(g, p, a).players[p as int] == a,
        set_player(g, p, a).players.len() == g.players.len(),
{
    assert(set_player(set_player(g, p, a), p, b).players =~= set_player(g, p, b).players);
}

proof fn lemma_set_same(g: GameModel, p: usize)
    requires
        p < g.players.len(),
    ensures
        set_player(g, p, g.players[p as int]) =~= g,
{
    assert(set_player(g, p, g.players[p as int]).players =~= g.players);
}

// ---------------------------------------------------------------------------
// The engine
// ---------------------------------------------------------------------------

pub struct Game {
    pub db: CardDb,
    pub players: [PlayerState; 2],
    pub active: usize,
    pub turn: u32,
    pub max_turns: u32,
    pub log: Vec<String>,
    pub verbose: bool,
}

impl View for Game {
    type V = GameModel;

    open spec fn view(&self) -> GameModel {
        GameModel {
            db: self.db@,
            players: seq![self.players[0]@, self.players[1]@],
            active: self.active,
            turn: self.turn,
            max_turns: self.max_turns,
            log: strs(self.log@),
            verbose: self.verbose,
        }
    }
}

impl PlayerState {
    /// A player from a deck: its cards shuffled into the deck, an empty hand.
    fn from_deck(d: Deck, rng: &mut Rng) -> (r: PlayerState)
        ensures
            (r@, final(rng).state) == shuffled_player(d, old(rng).state),
    {
        let Deck { hero, life, intellect, weapon, equipment, cards } = d;
        let mut cards = cards;
        rng.shuffle(&mut cards);
        let ghost shuffled = cards@;
        let mut deck: VecDeque<String> = VecDeque::new();
        let n = cards.len();
        let mut i: usize = 0;
        while i < n
            invariant
                cards@ == shuffled,
                n == shuffled.len(),
                i <= n,
                deck@ == shuffled.take(i as int),
            decreases n - i,
        {
            deck.push_back(cards[i].clone());
            assert(deck@ =~= shuffled.take(i + 1));
            i = i + 1;
        }
        assert(deck@ =~= shuffled);
        let r = PlayerState {
            hero,
            life,
            intellect,
            deck,
            hand: Vec::new(),
            arsenal: None,
            pitch: Vec::new(),
            graveyard: Vec::new(),
            equipment,
            weapon,
            action_points: 0,
        };
        assert(r@.hand =~= Seq::<String>::empty());
        assert(r@.pitch =~= Seq::<String>::empty());
        assert(r@.graveyard =~= Seq::<String>::empty());
        r
    }

    /// The opening draw: up to intellect cards from the top of the deck.
    fn draw_opening(&mut self)
        ensures
            final(self)@ == opening_draw(old(self)@),
    {
        let ghost orig = old(self)@.deck;
        let ghost h0 = old(self)@.hand;
        let n = self.intellect;
        let mut j: u8 = 0;
        while j < n
            invariant
                n == self.intellect,
                j <= n,
                self@ == (PlayerModel {
                    hand: h0 + orig.take(if (j as int) < orig.len() { j as int } else { orig.len() as int }),
                    deck: orig.skip(if (j as int) < orig.len() { j as int } else { orig.len() as int }),
                    ..old(self)@
                }),
            decreases n - j,
        {
            if let Some(c) = self.deck.pop_front() {
                self.hand.push(c);
            }
            proof {
                let k = if (j as int) < orig.len() { j as int } else { orig.len() as int };
                if (j as int) < orig.len() {
                    assert(orig.take(k + 1) =~= orig.take(k).push(orig[k]));
                    assert(h0 + orig.take(k + 1) =~= (h0 + orig.take(k)).push(orig[k]));
                    assert(orig.skip(k + 1) =~= orig.skip(k).drop_first());
                }
            }
            j = j + 1;
        }
    }

    /// Out of cards: nothing in deck, hand or arsenal.
    pub fn exhausted(&self) -> (r: bool)
        ensures
            r == exhausted(self@),
    {
        self.deck.len() == 0 && self.hand.len() == 0 && self.arsenal.is_none()
    }
}

impl Game {
    pub fn new(db: CardDb, decks: [Deck; 2], seed: u64) -> (r: Self)
        ensures
            r@ == new_game(db@, decks[0], decks[1], seed),
    {
        let ghost d0 = decks[0];
        let ghost d1 = decks[1];
        let mut decks = decks;
        let mut deck0 = Deck::combat_dummy(0);
        let mut deck1 = Deck::combat_dummy(0);
        std::mem::swap(&mut deck0, &mut decks[0]);
        std::mem::swap(&mut deck1, &mut decks[1]);
        assert(deck0 == d0 && deck1 == d1);
        let mut rng = Rng::new(seed);
        let ghost st0 = rng.state;
        let mut p0 = PlayerState::from_deck(deck0, &mut rng);
        let ghost st1 = rng.state;
        let mut p1 = PlayerState::from_deck(deck1, &mut rng);
        // Opening hands: draw to intellect.
        p0.draw_opening();
        p1.draw_opening();
        proof {
            let (a0, _) = shuffled_player(d0, st0);
            let (a1, _) = shuffled_player(d1, st1);
            assert(Seq::<String>::empty() + a0.deck.take(
                if (d0.intellect as int) < a0.deck.len() { d0.intellect as int } else { a0.deck.len() as int },
            ) =~= a0.deck.take(
                if (d0.intellect as int) < a0.deck.len() { d0.intellect as int } else { a0.deck.len() as int },
            ));
            assert(Seq::<String>::empty() + a1.deck.take(
                if (d1.intellect as int) < a1.deck.len() { d1.intellect as int } else { a1.deck.len() as int },
            ) =~= a1.deck.take(
                if (d1.intellect as int) < a1.deck.len() { d1.intellect as int } else { a1.deck.len() as int },
            ));
            assert(p0@ == opening_player(d0, st0).0);
            assert(p1@ == opening_player(d1, st1).0);
        }
        let g = Game {
            db,
            players: [p0, p1],
            active: 0,
            turn: 0,
            max_turns: 200,
            log: Vec::new(),
            verbose: false,
        };
        assert(strs(g.log@) =~= Seq::<Seq<char>>::empty());
        assert(g@ =~= new_game(db@, d0, d1, seed));
        g
    }

    /// The turn counter.
    pub fn turn_count(&self) -> (r: u32)
        ensures
            r == self@.turn,
    {
        self.turn
    }

    // ---- read helpers for agents ----
    pub fn db(&self) -> (r: &CardDb)
        ensures
            r@ == self@.db,
    {
        &self.db
    }

    pub fn card(&self, id: &str) -> (r: Option<&Card>)
        ensures
            match r {
                Some(c) => lookup(self@.db, id@) == Some(c@),
                None => lookup(self@.db, id@) is None,
            },
    {
        self.db.get(id)
    }

    pub fn me(&self, p: usize) -> (r: &PlayerState)
        requires
            p < 2,
        ensures
            r@ == self@.players[p as int],
    {
        &self.players[p]
    }

    pub fn opponent(&self, p: usize) -> (r: &PlayerState)
        requires
            p < 2,
        ensures
            r@ == self@.players[1 - p],
    {
        &self.players[1 - p]
    }

    /// Total pitch in player `p`'s hand besides index `exclude`, capped at 256
    /// (more than any card can cost).
    fn pitchable_excluding(&self, p: usize, exclude: usize) -> (r: u32)
        requires
            p < 2,
        ensures
            r == if pitchable(self@, p, exclude as int) < 256 {
                pitchable(self@, p, exclude as int)
            } else {
                256
            },
    {
        let hand = &self.players[p].hand;
        let ghost db = self@.db;
        let mut acc: u32 = 0;
        let mut i: usize = 0;
        while i < hand.len()
            invariant
                hand@ == self@.players[p as int].hand,
                db == self@.db,
                i <= hand@.len(),
                pitch_sum_excluding(db, hand@, exclude as int, i as int) >= 0,
                acc == if pitch_sum_excluding(db, hand@, exclude as int, i as int) < 256 {
                    pitch_sum_excluding(db, hand@, exclude as int, i as int)
                } else {
                    256
                },
            decreases hand@.len() - i,
        {
            let v: u32 = if i == exclude {
                0
            } else {
                match self.db.get(hand[i].as_str()) {
                    Some(c) => c.pitch().value() as u32,
                    None => 0,
                }
            };
            assert(v as int == (if i == exclude {
                0
            } else {
                pitch_of(db, hand@[i as int])
            }));
            acc = if acc + v >= 256 {
                256
            } else {
                acc + v
            };
            i = i + 1;
        }
        acc
    }

    /// Legal actions for the active player: `EndTurn` first, then every playable
    /// hand index in ascending order.
    pub fn legal_actions(&self) -> (r: Vec<Action>)
        requires
            self@.active < 2,
        ensures
            r@ == legal(self@),
    {
        let p = self.active;
        let mut acts: Vec<Action> = Vec::new();
        acts.push(Action::EndTurn);
        let n = self.players[p].hand.len();
        let mut i: usize = 0;
        while i < n
            invariant
                p == self@.active,
                p < 2,
                n == self@.players[p as int].hand.len(),
                i <= n,
                acts@ == legal_upto(self@, i as int),
            decreases n - i,
        {
            let ok = match self.db.get(self.players[p].hand[i].as_str()) {
                None => false,
                Some(card) => {
                    let first_type = if card.types.len() > 0 {
                        card.types[0]
                    } else {
                        CardType::Other
                    };
                    let attack = card.is_attack();
                    let playable_type = first_type == CardType::Action || first_type
                        == CardType::Instant || attack;
                    let is_action = card.is_type(CardType::Action) || attack;
                    if !playable_type {
                        false
                    } else if is_action && self.players[p].action_points == 0 {
                        false
                    } else {
                        (card.cost as u32) <= self.pitchable_excluding(p, i)
                    }
                },
            };
            assert(ok == playable(self@, i as int));
            if ok {
                acts.push(Action::Play(i));
            }
            i = i + 1;
        }
        acts
    }

    fn draw(&mut self, p: usize) -> (r: Option<String>)
        requires
            p < 2,
        ensures
            final(self)@ == set_player(old(self)@, p, draw_model(old(self)@.players[p as int])),
            r == if old(self)@.players[p as int].deck.len() > 0 {
                Some(old(self)@.players[p as int].deck[0])
            } else {
                None
            },
    {
        if let Some(c) = self.players[p].deck.pop_front() {
            self.players[p].hand.push(c.clone());
            assert(self@ =~= set_player(old(self)@, p, draw_model(old(self)@.players[p as int])));
            Some(c)
        } else {
            assert(self@ =~= set_player(old(self)@, p, draw_model(old(self)@.players[p as int])));
            None
        }
    }

    /// Pitched cards go to the bottom of the deck, the hand refills up to
    /// intellect, and the turn passes.
    fn end_turn(&mut self)
        requires
            old(self)@.active < 2,
        ensures
            final(self)@ == end_turn_model(old(self)@),
    {
        let p = self.active;
        let ghost pl0 = old(self)@.players[p as int];
        let ghost deck1 = pl0.deck + pl0.pitch;
        let mut pitched: Vec<String> = Vec::new();
        std::mem::swap(&mut pitched, &mut self.players[p].pitch);
        let mut i: usize = 0;
        while i < pitched.len()
            invariant
                p == self.active,
                p < 2,
                pitched@ == pl0.pitch,
                i <= pitched@.len(),
                self.players[p as int].deck@ == pl0.deck + pl0.pitch.take(i as int),
                self.players[p as int].pitch@ == Seq::<String>::empty(),
                self.players[p as int].hand@ == pl0.hand,
                self.players[p as int].intellect == pl0.intellect,
                self@ == set_player(old(self)@, p, PlayerModel {
                    deck: self.players[p as int].deck@,
                    pitch: Seq::empty(),
                    ..pl0
                }),
            decreases pitched@.len() - i,
        {
            self.players[p].deck.push_back(pitched[i].clone());
            i = i + 1;
            assert(self.players[p as int].deck@ =~= pl0.deck + pl0.pitch.take(i as int));
            assert(self@ =~= set_player(old(self)@, p, PlayerModel {
                deck: self.players[p as int].deck@,
                pitch: Seq::empty(),
                ..pl0
            }));
        }
        assert(pl0.pitch.take(i as int) =~= pl0.pitch);
        let ghost g1 = self@;
        let ghost m0 = PlayerModel { deck: deck1, pitch: Seq::empty(), ..pl0 };
        assert(self.players[p as int].deck@ =~= deck1);
        assert(g1.players[p as int] =~= m0);
        assert(deck1.skip(0) =~= deck1);
        assert(pl0.hand + deck1.take(0) =~= pl0.hand);
        proof {
            lemma_set_same(g1, p);
        }
        let mut j: usize = 0;
        let mut more = true;
        while more && self.players[p].hand.len() < self.players[p].intellect as usize
            invariant
                p == self.active,
                p < 2,
                g1.players.len() == 2,
                j <= deck1.len(),
                self.players[p as int].deck@ == deck1.skip(j as int),
                self.players[p as int].hand@ == pl0.hand + deck1.take(j as int),
                self.players[p as int].intellect == pl0.intellect,
                pl0.hand.len() + j <= pl0.intellect || j == 0,
                !more ==> j == deck1.len() && pl0.hand.len() + j < pl0.intellect,
                self@ == set_player(g1, p, PlayerModel {
                    deck: deck1.skip(j as int),
                    hand: pl0.hand + deck1.take(j as int),
                    pitch: Seq::empty(),
                    ..pl0
                }),
            decreases deck1.len() - j, (if more { 1int } else { 0int }),
        {
            let ghost prev = self@;
            let ghost mj = prev.players[p as int];
            let d = self.draw(p);
            proof {
                lemma_set_twice(g1, p, mj, draw_model(mj));
            }
            if d.is_none() {
                more = false;
                assert(draw_model(mj) =~= mj);
            } else {
                assert(deck1.skip(j as int).drop_first() =~= deck1.skip(j + 1));
                assert(pl0.hand + deck1.take(j + 1) =~= (pl0.hand + deck1.take(j as int)).push(
                    deck1[j as int],
                ));
                j = j + 1;
                assert(draw_model(mj) =~= PlayerModel {
                    deck: deck1.skip(j as int),
                    hand: pl0.hand + deck1.take(j as int),
                    pitch: Seq::empty(),
                    ..pl0
                });
            }
        }
        self.active = 1 - self.active;
        proof {
            lemma_set_twice(old(self)@, p, m0, self@.players[p as int]);
        }
        assert(self@ =~= end_turn_model(old(self)@));
    }

    fn pitch_values(&self, p: usize) -> (r: Vec<u32>)
        requires
            p < 2,
        ensures
            r@.len() == self@.players[p as int].hand.len(),
            forall|i: int|
                0 <= i < r@.len() ==> (#[trigger] r@[i]) as int == pitch_of(
                    self@.db,
                    self@.players[p as int].hand[i],
                ) && r@[i] <= 3,
    {
        let hand = &self.players[p].hand;
        let mut vals: Vec<u32> = Vec::new();
        let mut i: usize = 0;
        while i < hand.len()
            invariant
                hand@ == self@.players[p as int].hand,
                i <= hand@.len(),
                vals@.len() == i,
                forall|j: int|
                    0 <= j < i ==> (#[trigger] vals@[j]) as int == pitch_of(self@.db, hand@[j])
                        && vals@[j] <= 3,
            decreases hand@.len() - i,
        {
            let v: u32 = match self.db.get(hand[i].as_str()) {
                Some(c) => c.pitch().value() as u32,
                None => 0,
            };
            vals.push(v);
            i = i + 1;
        }
        vals
    }

    /// Pitch cards from `p`'s hand to cover `cost`; `false` (and no change) when
    /// the hand cannot cover it.
    fn pay_cost(&mut self, p: usize, cost: u8) -> (r: bool)
        requires
            p < 2,
        ensures
            match pay_model(old(self)@.db, old(self)@.players[p as int], cost) {
                Some(pl) => r && final(self)@ == set_player(old(self)@, p, pl),
                None => !r && final(self)@ == old(self)@,
            },
    {
        if cost == 0 {
            proof {
                lemma_set_same(self@, p);
            }
            return true;
        }
        let ghost db = self@.db;
        let ghost hand = self@.players[p as int].hand;
        let n = self.players[p].hand.len();
        let vals = self.pitch_values(p);
        // candidates: blue, then yellow, then red, each by hand position
        let mut order: Vec<usize> = Vec::new();
        let mut v: u32 = 3;
        while v >= 1
            invariant
                1 <= v + 1 <= 4,
                vals@.len() == n,
                n == hand.len(),
                forall|i: int| 0 <= i < n ==> (#[trigger] vals@[i]) as int == pitch_of(db, hand[i]),
                forall|t: int| 0 <= t < order@.len() ==> (#[trigger] order@[t]) < n,
                order@.map_values(|x: usize| x as int) == (if v == 3 {
                    Seq::<int>::empty()
                } else if v == 2 {
                    idx_with_pitch(db, hand, 3, n as int)
                } else if v == 1 {
                    idx_with_pitch(db, hand, 3, n as int) + idx_with_pitch(db, hand, 2, n as int)
                } else {
                    pay_order(db, hand)
                }),
            decreases v,
        {
            let ghost before = order@.map_values(|x: usize| x as int);
            let mut i: usize = 0;
            while i < n
                invariant
                    vals@.len() == n,
                    n == hand.len(),
                    1 <= v <= 3,
                    i <= n,
                    forall|i: int|
                        0 <= i < n ==> (#[trigger] vals@[i]) as int == pitch_of(db, hand[i]),
                    forall|t: int| 0 <= t < order@.len() ==> (#[trigger] order@[t]) < n,
                    order@.map_values(|x: usize| x as int) == before + idx_with_pitch(
                        db,
                        hand,
                        v as int,
                        i as int,
                    ),
                decreases n - i,
            {
                let ghost ov = order@;
                if vals[i] == v {
                    order.push(i);
                    assert(order@.map_values(|x: usize| x as int) =~= ov.map_values(
                        |x: usize| x as int,
                    ).push(i as int));
                }
                assert(pitch_of(db, hand[i as int]) == v as int <==> vals@[i as int] == v);
                i = i + 1;
                assert(order@.map_values(|x: usize| x as int) =~= before + idx_with_pitch(
                    db,
                    hand,
                    v as int,
                    i as int,
                ));
            }
            v = v - 1;
        }
        let ghost ord = pay_order(db, hand);
        assert(order@.map_values(|x: usize| x as int) == ord);
        // pitch candidates until the cost is covered
        let mut k: usize = 0;
        let mut got: u32 = 0;
        assert(spend(db, hand, ord, cost as int, 0, 0) == spend(db, hand, ord, cost as int, 0, 0));
        while k < order.len() && got < cost as u32
            invariant
                vals@.len() == n,
                n == hand.len(),
                forall|i: int| 0 <= i < n ==> (#[trigger] vals@[i]) as int == pitch_of(db, hand[i]),
                forall|i: int| 0 <= i < n ==> (#[trigger] vals@[i]) <= 3,
                forall|t: int| 0 <= t < order@.len() ==> (#[trigger] order@[t]) < n,
                order@.map_values(|x: usize| x as int) == ord,
                k <= order@.len(),
                got < 256 + 3,
                spend(db, hand, ord, cost as int, 0, 0) == spend(
                    db,
                    hand,
                    ord,
                    cost as int,
                    k as int,
                    got as int,
                ),
            decreases order@.len() - k,
        {
            assert(ord[k as int] == order@[k as int] as int);
            got = got + vals[order[k]];
            k = k + 1;
        }
        assert(spend(db, hand, ord, cost as int, k as int, got as int) == (k as int, got as int));
        if got < cost as u32 {
            return false;
        }
        // mark the pitched positions
        let mut mark: Vec<bool> = vec![false; n];
        let ghost m = ord.take(k as int);
        let mut t: usize = 0;
        while t < k
            invariant
                mark@.len() == n,
                k <= order@.len(),
                t <= k,
                forall|u: int| 0 <= u < order@.len() ==> (#[trigger] order@[u]) < n,
                order@.map_values(|x: usize| x as int) == ord,
                m == ord.take(k as int),
                forall|i: int| 0 <= i < n ==> (#[trigger] mark@[i]) == ord.take(t as int).contains(i),
            decreases k - t,
        {
            let idx = order[t];
            assert(ord[t as int] == idx as int);
            let ghost om = mark@;
            mark.set(idx, true);
            assert(mark@ == om.update(idx as int, true));
            t = t + 1;
            assert(ord.take(t as int) =~= ord.take(t - 1).push(ord[t - 1]));
            assert forall|i: int| 0 <= i < n implies (#[trigger] mark@[i]) == ord.take(
                t as int,
            ).contains(i) by {
                lemma_push_contains(ord.take(t - 1), ord[t - 1], i);
            }
        }
        assert(ord.take(t as int) =~= m);
        // rebuild the hand without the pitched cards; pitch them highest index first
        let mut kept: Vec<String> = Vec::new();
        let mut i: usize = 0;
        while i < n
            invariant
                n == hand.len(),
                p < 2,
                self@.players[p as int].hand == hand,
                mark@.len() == n,
                forall|j: int| 0 <= j < n ==> (#[trigger] mark@[j]) == m.contains(j),
                i <= n,
                kept@ == unmarked(hand, m, i as int),
            decreases n - i,
        {
            if !mark[i] {
                kept.push(self.players[p].hand[i].clone());
            }
            i = i + 1;
        }
        let ghost pitch0 = self@.players[p as int].pitch;
        let mut j: usize = n;
        while j > 0
            invariant
                n == hand.len(),
                p < 2,
                self.active == old(self).active,
                self@.players[p as int].hand == hand,
                mark@.len() == n,
                forall|i: int| 0 <= i < n ==> (#[trigger] mark@[i]) == m.contains(i),
                j <= n,
                self@.players[p as int].pitch + marked_desc(hand, m, j as int) == pitch0
                    + marked_desc(hand, m, n as int),
                self@ == set_player(old(self)@, p, PlayerModel {
                    pitch: self@.players[p as int].pitch,
                    ..old(self)@.players[p as int]
                }),
            decreases j,
        {
            j = j - 1;
            if mark[j] {
                let c = self.players[p].hand[j].clone();
                self.players[p].pitch.push(c);
            }
            assert(self@ =~= set_player(old(self)@, p, PlayerModel {
                pitch: self@.players[p as int].pitch,
                ..old(self)@.players[p as int]
            }));
        }
        self.players[p].hand = kept;
        assert(marked_desc(hand, m, 0) =~= Seq::<String>::empty());
        assert(self@.players[p as int].pitch =~= pitch0 + marked_desc(hand, m, n as int));
        assert(self@ =~= set_player(old(self)@, p, pay_model(db, old(self)@.players[p as int], cost)->0));
        true
    }

    /// The hand without the marked positions, and the marked cards from the highest
    /// position down.
    fn split_marked(hand: &Vec<String>, mark: &Vec<bool>, Ghost(m): Ghost<Seq<int>>) -> (r: (
        Vec<String>,
        Vec<String>,
    ))
        requires
            mark@.len() == hand@.len(),
            forall|i: int| 0 <= i < hand@.len() ==> (#[trigger] mark@[i]) == m.contains(i),
        ensures
            r.0@ == unmarked(hand@, m, hand@.len() as int),
            r.1@ == marked_desc(hand@, m, hand@.len() as int),
    {
        let n = hand.len();
        let mut kept: Vec<String> = Vec::new();
        let mut i: usize = 0;
        while i < n
            invariant
                n == hand@.len(),
                mark@.len() == n,
                forall|j: int| 0 <= j < n ==> (#[trigger] mark@[j]) == m.contains(j),
                i <= n,
                kept@ == unmarked(hand@, m, i as int),
            decreases n - i,
        {
            if !mark[i] {
                kept.push(hand[i].clone());
            }
            i = i + 1;
        }
        let mut moved: Vec<String> = Vec::new();
        let mut j: usize = n;
        while j > 0
            invariant
                n == hand@.len(),
                mark@.len() == n,
                forall|i: int| 0 <= i < n ==> (#[trigger] mark@[i]) == m.contains(i),
                j <= n,
                moved@ + marked_desc(hand@, m, j as int) == marked_desc(hand@, m, n as int),
            decreases j,
        {
            j = j - 1;
            let ghost before = moved@;
            if mark[j] {
                moved.push(hand[j].clone());
                assert(moved@ + marked_desc(hand@, m, j as int) =~= before + marked_desc(
                    hand@,
                    m,
                    j + 1,
                ));
            } else {
                assert(moved@ + marked_desc(hand@, m, j as int) =~= before + marked_desc(
                    hand@,
                    m,
                    j + 1,
                ));
            }
        }
        assert(moved@ =~= moved@ + marked_desc(hand@, m, 0));
        (kept, moved)
    }

    /// Marks the hand positions of the defender that block.
    fn mark_blocks(blocks: &Vec<usize>, n: usize, dominate: bool) -> (r: Vec<bool>)
        ensures
            r@.len() == n,
            forall|i: int|
                0 <= i < n ==> (#[trigger] r@[i]) == block_marks(blocks@, n as int, dominate).contains(
                    i,
                ),
    {
        let mut mark: Vec<bool> = vec![false; n];
        let mut k: usize = 0;
        let mut open = true;
        while open && k < blocks.len()
            invariant
                mark@.len() == n,
                k <= blocks@.len(),
                !dominate ==> open,
                !dominate ==> forall|i: int|
                    0 <= i < n ==> (#[trigger] mark@[i]) == blocks@.take(k as int).map_values(
                        |b: usize| b as int,
                    ).contains(i),
                dominate && open ==> forall|i: int| 0 <= i < n ==> !(#[trigger] mark@[i]),
                dominate && open ==> first_valid(blocks@, n as int, 0) == first_valid(
                    blocks@,
                    n as int,
                    k as int,
                ),
                dominate && !open ==> (first_valid(blocks@, n as int, 0) matches Some(b) && forall|
                    i: int,
                |
                    0 <= i < n ==> (#[trigger] mark@[i]) == (i == b as int)),
            decreases blocks@.len() - k, (if open { 1int } else { 0int }),
        {
            let b = blocks[k];
            let ghost om = mark@;
            let ghost tk = blocks@.take(k as int).map_values(|x: usize| x as int);
            assert(blocks@.take(k + 1).map_values(|x: usize| x as int) =~= tk.push(b as int));
            if b < n {
                mark.set(b, true);
                if dominate {
                    open = false;
                }
            }
            proof {
                assert forall|i: int| 0 <= i < n implies #[trigger] tk.push(b as int).contains(i)
                    == (tk.contains(i) || b as int == i) by {
                    lemma_push_contains(tk, b as int, i);
                }
            }
            k = k + 1;
        }
        proof {
            if !dominate {
                assert(blocks@.take(k as int) =~= blocks@);
            } else if open {
                assert(first_valid(blocks@, n as int, k as int) is None);
            }
            assert forall|i: int| 0 <= i < n implies (#[trigger] mark@[i]) == block_marks(
                blocks@,
                n as int,
                dominate,
            ).contains(i) by {
                if dominate {
                    match first_valid(blocks@, n as int, 0) {
                        Some(b) => {
                            assert(seq![b as int][0] == b as int);
                        },
                        None => {},
                    }
                }
            }
        }
        mark
    }

    /// Total defense of the defender's marked hand cards.
    fn block_total(&self, d: usize, mark: &Vec<bool>, Ghost(m): Ghost<Seq<int>>) -> (r: i128)
        requires
            d < 2,
            mark@.len() == self@.players[d as int].hand.len(),
            forall|i: int|
                0 <= i < mark@.len() ==> (#[trigger] mark@[i]) == m.contains(i),
        ensures
            r as int == marked_defense(
                self@.db,
                self@.players[d as int].hand,
                m,
                self@.players[d as int].hand.len() as int,
            ),
            -(self@.players[d as int].hand.len() as int) * 0x8000_0000 <= r
                <= (self@.players[d as int].hand.len() as int) * 0x8000_0000,
    {
        let hand = &self.players[d].hand;
        let ghost db = self@.db;
        let mut acc: i128 = 0;
        let mut i: usize = 0;
        let n = hand.len();
        while i < hand.len()
            invariant
                db == self@.db,
                hand@ == self@.players[d as int].hand,
                n == hand@.len(),
                mark@.len() == hand@.len(),
                forall|i: int| 0 <= i < mark@.len() ==> (#[trigger] mark@[i]) == m.contains(i),
                i <= hand@.len(),
                acc as int == marked_defense(db, hand@, m, i as int),
                -(i as int) * 0x8000_0000 <= acc <= (i as int) * 0x8000_0000,
            decreases hand@.len() - i,
        {
            if mark[i] {
                let v: i32 = match self.db.get(hand[i].as_str()) {
                    Some(c) => c.defense,
                    None => 0,
                };
                assert(v as int == defense_of(db, hand@[i as int]));
                acc = acc + v as i128;
            }
            i = i + 1;
        }
        acc
    }

    /// Whether the sums of a combat with this power, block total and defender's
    /// life fit `i32`.
    fn combat_fits_check(power: i32, total: i128, life: i32) -> (r: bool)
        requires
            -0x1_0000_0000_0000_0000_0000_0000 <= total <= 0x1_0000_0000_0000_0000_0000_0000,
        ensures
            r == combat_fits(power as int, total as int, life as int),
    {
        let beyond: i128 = power as i128 - total;
        let damage: i128 = if beyond > 0 {
            beyond
        } else {
            0
        };
        -0x8000_0000i128 <= total && total <= 0x7fff_ffffi128 && -0x8000_0000i128 <= beyond
            && beyond <= 0x7fff_ffffi128 && life as i128 - damage >= -0x8000_0000i128
    }

    /// Resolves an attack with `card` by player `me`; `false` where the combat
    /// arithmetic leaves the engine's integers (see `attack_ok`).
    #[verifier::spinoff_prover]
    #[verifier::rlimit(40)]
    fn resolve_attack<A0: Agent, A1: Agent>(
        &mut self,
        me: usize,
        card: &Card,
        a0: &mut A0,
        a1: &mut A1,
    ) -> (ok: bool)
        requires
            me < 2,
            old(self)@.players.len() == 2,
        ensures
            ok == attack_ok(old(self)@, me, card@, *old(a0), *old(a1)),
            ok ==> (final(self)@, *final(a0), *final(a1)) == attack_model(
                old(self)@,
                me,
                card@,
                *old(a0),
                *old(a1),
            ),
    {
        let power: i32 = match card.power {
            Some(p) => p,
            None => 0,
        };
        let defender: usize = 1 - me;
        let dominate = card.keywords.dominate;
        let blocks = if defender == 0 {
            a0.choose_blocks(self, defender, power, dominate)
        } else {
            a1.choose_blocks(self, defender, power, dominate)
        };
        let n = self.players[defender].hand.len();
        let ghost marks = block_marks(blocks@, n as int, dominate);
        let mark = Self::mark_blocks(&blocks, n, dominate);
        let wide_total = self.block_total(defender, &mark, Ghost(marks));
        proof {
            lemma_attack_ok_iff(old(self)@, me, card@, *old(a0), *old(a1), blocks@, wide_total as int);
        }
        if !Self::combat_fits_check(power, wide_total, self.players[defender].life) {
            return false;
        }
        let total = wide_total as i32;
        let (kept, mut moved) = Self::split_marked(&self.players[defender].hand, &mark, Ghost(marks));
        self.players[defender].hand = kept;
        self.players[defender].graveyard.append(&mut moved);
        let damage: i32 = if power - total > 0 {
            power - total
        } else {
            0
        };
        let hit = damage > 0;
        if hit {
            self.players[defender].life = self.players[defender].life - damage;
        }
        let mark_text = if hit {
            " HIT"
        } else {
            ""
        };
        let line = attack_line_text(
            me,
            card.name.as_str(),
            power,
            total,
            damage,
            mark_text,
            defender,
            self.players[defender].life,
        );
        self.log.push(line);
        let ghost g4 = self@;
        if hit && card.keywords.draws_on_hit {
            self.draw(me);
        }
        proof {
            let ghost a = attack_model(old(self)@, me, card@, *old(a0), *old(a1));
            assert(strs(self.log@) =~= strs(old(self).log@).push(
                attack_line(
                    me,
                    card@.name,
                    power,
                    total,
                    damage,
                    hit_mark(damage > 0),
                    defender,
                    self.players[defender as int].life,
                ),
            )) by {
                assert(mark_text@ == hit_mark(hit));
            }
            assert(self@ =~= a.0);
        }
        true
    }

    /// Plays hand card `idx` of player `me`; `false` where an attack's arithmetic
    /// leaves the engine's integers (see `play_ok`).
    fn play_from_hand<A0: Agent, A1: Agent>(
        &mut self,
        idx: usize,
        me: usize,
        a0: &mut A0,
        a1: &mut A1,
    ) -> (ok: bool)
        requires
            me < 2,
            old(self)@.players.len() == 2,
        ensures
            ok == play_ok(old(self)@, idx, me, *old(a0), *old(a1)),
            ok ==> (final(self)@, *final(a0), *final(a1)) == play_model(
                old(self)@,
                idx,
                me,
                *old(a0),
                *old(a1),
            ),
    {
        if idx >= self.players[me].hand.len() {
            return true;
        }
        let id = self.players[me].hand.remove(idx);
        let ghost g1 = self@;
        let ghost pl0 = old(self)@.players[me as int];
        let ghost pl1m = PlayerModel { hand: pl0.hand.remove(idx as int), ..pl0 };
        assert(g1 =~= set_player(old(self)@, me, pl1m));
        let card_opt = self.db.get(id.as_str());
        let card: Card = match card_opt {
            Some(c) => c.duplicate(),
            None => {
                assert(self@ =~= play_model(old(self)@, idx, me, *old(a0), *old(a1)).0);
                return true;
            },
        };
        let ghost pl1 = g1.players[me as int];
        if !self.pay_cost(me, card.cost) {
            self.players[me].hand.insert(idx, id);
            assert(self.players[me as int].hand@ =~= old(self)@.players[me as int].hand);
            assert(self@ =~= old(self)@);
            return true;
        }
        let ghost g2 = self@;
        proof {
            let pl2 = pay_model(g1.db, pl1, card@.cost)->0;
            lemma_set_twice(old(self)@, me, pl1m, pl2);
            assert(g2 == set_player(old(self)@, me, pl2));
        }
        if card.is_attack() {
            if !self.resolve_attack(me, &card, a0, a1) {
                return false;
            }
        } else {
            let line = non_attack_line_text(me, card.name.as_str());
            self.log.push(line);
            assert(strs(self.log@) =~= g2.log.push(non_attack_line(me, card@.name)));
        }
        let ghost g3 = self@;
        let ghost p3 = g3.players[me as int];
        self.players[me].graveyard.push(id);
        if !card.keywords.go_again {
            self.players[me].action_points = self.players[me].action_points.saturating_sub(1);
        }
        proof {
            let pm = play_model(old(self)@, idx, me, *old(a0), *old(a1));
            let ap: u8 = if card@.keywords.go_again {
                p3.action_points
            } else if p3.action_points > 0 {
                (p3.action_points - 1) as u8
            } else {
                0
            };
            assert(self@ =~= set_player(g3, me, PlayerModel {
                graveyard: p3.graveyard.push(id),
                action_points: ap,
                ..p3
            }));
            assert(self@ =~= pm.0);
        }
        true
    }

    fn contains_action(legal: &Vec<Action>, a: Action) -> (r: bool)
        ensures
            r == legal@.contains(a),
    {
        let mut i: usize = 0;
        while i < legal.len()
            invariant
                i <= legal@.len(),
                forall|j: int| 0 <= j < i ==> legal@[j] != a,
            decreases legal@.len() - i,
        {
            if legal[i] == a {
                return true;
            }
            i = i + 1;
        }
        false
    }

    /// Takes one turn for the active player; `false` where the turn counter or a
    /// combat leaves the engine's integers (see `turn_ok`).
    fn take_turn<A0: Agent, A1: Agent>(&mut self, a0: &mut A0, a1: &mut A1) -> (ok: bool)
        requires
            game_shaped(old(self)@),
        ensures
            ok == turn_ok(old(self)@, *old(a0), *old(a1)),
            ok ==> (final(self)@, *final(a0), *final(a1)) == turn_model(
                old(self)@,
                *old(a0),
                *old(a1),
            ),
    {
        reveal(turn_model);
        if self.turn == u32::MAX {
            return false;
        }
        let p = self.active;
        self.turn = self.turn + 1;
        self.players[p].action_points = 1;
        let line = turn_line_text(
            self.turn,
            p,
            self.players[p].hero.as_str(),
            self.players[p].life,
            self.players[1 - p].life,
        );
        self.log.push(line);
        let ghost g2 = self@;
        let ghost pl = old(self)@.players[p as int];
        assert(g2 =~= add_log(
            GameModel {
                turn: (old(self)@.turn + 1) as u32,
                ..set_player(old(self)@, p, PlayerModel { action_points: 1, ..pl })
            },
            turn_line((old(self)@.turn + 1) as u32, p, pl.hero@, pl.life, old(self)@.players[1 - p].life),
        ));
        let ghost b0 = *a0;
        let ghost b1 = *a1;
        assert(g2 == turn_start(old(self)@));
        let mut done: usize = 0;
        let mut more = true;
        let mut won = false;
        while more
            invariant
                p == self.active,
                p < 2,
                game_shaped(self@),
                same_frame(g2, self@),
                g2 == turn_start(old(self)@),
                b0 == *old(a0),
                b1 == *old(a1),
                old(self)@.turn < u32::MAX,
                phase_ok(g2, b0, b1, 0) == (more ==> phase_ok(self@, *a0, *a1, done as int)),
                more ==> !won,
                done <= 100,
                action_phase(g2, b0, b1, 0) == if more {
                    action_phase(self@, *a0, *a1, done as int)
                } else {
                    (won, self@, *a0, *a1)
                },
            decreases 100 - done, (if more { 1int } else { 0int }),
        {
            if done >= 100 {
                more = false;
            } else {
                let ghost gd = self@;
                let ghost x0 = *a0;
                let ghost x1 = *a1;
                let legal = self.legal_actions();
                proof {
                    law_end_turn_always_legal(gd);
                }
                let chosen = if p == 0 {
                    a0.choose_action(self, p, legal.as_slice())
                } else {
                    a1.choose_action(self, p, legal.as_slice())
                };
                let action = if Self::contains_action(&legal, chosen) {
                    chosen
                } else {
                    Action::EndTurn
                };
                assert((action, *a0, *a1) == chosen_action(gd, x0, x1));
                done = done + 1;
                match action {
                    Action::EndTurn => {
                        more = false;
                    },
                    Action::Play(i) => {
                        proof {
                            lemma_play_keeps(gd, i, p, *a0, *a1);
                        }
                        if !self.play_from_hand(i, p, a0, a1) {
                            return false;
                        }
                        if self.check_winner().is_some() {
                            won = true;
                            more = false;
                        } else if self.players[p].action_points == 0 {
                            more = false;
                        }
                    },
                }
            }
        }
        if !won {
            self.end_turn();
        }
        true
    }

    /// Run a full game between two agents; returns the outcome.
    pub fn run<A0: Agent, A1: Agent>(&mut self, a0: &mut A0, a1: &mut A1) -> (r: Outcome)
        requires
            old(self)@.active < 2,
            run_finishes(old(self)@, *old(a0), *old(a1)),
        ensures
            exists|f: nat|
                run_model(old(self)@, *old(a0), *old(a1), f) == Some(
                    (r, final(self)@, *final(a0), *final(a1)),
                ),
    {
        match self.try_run(a0, a1) {
            Some(o) => o,
            None => {
                // `try_run` gives up only where `run_finishes` fails.
                proof {
                    assert(false);
                }
                Outcome::Draw
            },
        }
    }

    /// Runs a full game where the engine can finish it: `None` on a game that
    /// never finishes (two passive targets pass the turn back and forth) or whose
    /// turn counter or combat arithmetic leaves the engine's integers.
    pub fn try_run<A0: Agent, A1: Agent>(&mut self, a0: &mut A0, a1: &mut A1) -> (r: Option<
        Outcome,
    >)
        requires
            old(self)@.active < 2,
        ensures
            r is Some <==> run_finishes(old(self)@, *old(a0), *old(a1)),
            r matches Some(o) ==> exists|f: nat|
                run_model(old(self)@, *old(a0), *old(a1), f) == Some(
                    (o, final(self)@, *final(a0), *final(a1)),
                ),
    {
        let ghost g0 = self@;
        let ghost c0 = *a0;
        let ghost c1 = *a1;
        let ghost mut steps: nat = 0;
        loop
            invariant
                g0 == old(self)@,
                c0 == *old(a0),
                c1 == *old(a1),
                game_shaped(self@),
                run_finishes(g0, c0, c1) == run_finishes(self@, *a0, *a1),
                forall|f: nat|
                    #![trigger run_model(self@, *a0, *a1, f)]
                    run_model(g0, c0, c1, f + steps) == run_model(self@, *a0, *a1, f),
            decreases run_measure(self@),
        {
            if let Some(o) = self.check_winner() {
                assert(run_ok(self@, *a0, *a1, 1));
                assert(run_model(self@, *a0, *a1, 1) == Some((o, self@, *a0, *a1)));
                assert(run_model(g0, c0, c1, 1 + steps) == run_model(self@, *a0, *a1, 1));
                assert(run_model(g0, c0, c1, (1 + steps) as nat) == Some((o, self@, *a0, *a1)));
                return Some(o);
            }
            if self.turn >= self.max_turns {
                assert(run_ok(self@, *a0, *a1, 1));
                assert(run_model(self@, *a0, *a1, 1) == Some((Outcome::Draw, self@, *a0, *a1)));
                assert(run_model(g0, c0, c1, 1 + steps) == run_model(self@, *a0, *a1, 1));
                return Some(Outcome::Draw);
            }
            let p = self.active;
            if self.players[p].intellect == 0 && self.players[p].exhausted() {
                if self.players[1 - p].intellect == 0 && self.players[1 - p].exhausted() {
                    proof {
                        lemma_never_finishes(self@, *a0, *a1);
                    }
                    return None;
                }
                let ghost cur = self@;
                self.active = 1 - p;
                proof {
                    assert(self@ =~= GameModel { active: (1 - p) as usize, ..cur });
                    lemma_finishes_skip(cur, *a0, *a1);
                    assert forall|f: nat|
                        #![trigger run_model(self@, *a0, *a1, f)]
                        run_model(g0, c0, c1, f + (steps + 1)) == run_model(self@, *a0, *a1, f) by {
                        assert(run_model(cur, *a0, *a1, f + 1) == run_model(self@, *a0, *a1, f));
                        assert(run_model(g0, c0, c1, (f + 1) + steps) == run_model(cur, *a0, *a1, f + 1));
                        assert((f + 1) + steps == f + (steps + 1));
                    }
                    steps = steps + 1;
                }
            } else if self.players[p].exhausted() {
                assert(run_ok(self@, *a0, *a1, 1));
                assert(run_model(self@, *a0, *a1, 1) == Some(
                    (Outcome::Win((1 - p) as usize), self@, *a0, *a1),
                ));
                assert(run_model(g0, c0, c1, 1 + steps) == run_model(self@, *a0, *a1, 1));
                assert(run_model(g0, c0, c1, (1 + steps) as nat) == Some(
                    (Outcome::Win((1 - p) as usize), self@, *a0, *a1),
                ));
                return Some(Outcome::Win(1 - p));
            } else {
                let ghost cur = self@;
                let ghost d0 = *a0;
                let ghost d1 = *a1;
                proof {
                    lemma_turn_keeps(cur, d0, d1);
                    lemma_finishes_turn(cur, d0, d1);
                }
                if !self.take_turn(a0, a1) {
                    return None;
                }
                proof {
                    assert forall|f: nat|
                        #![trigger run_model(self@, *a0, *a1, f)]
                        run_model(g0, c0, c1, f + (steps + 1)) == run_model(self@, *a0, *a1, f) by {
                        assert(run_model(cur, d0, d1, f + 1) == run_model(self@, *a0, *a1, f));
                        assert(run_model(g0, c0, c1, (f + 1) + steps) == run_model(cur, d0, d1, f + 1));
                        assert((f + 1) + steps == f + (steps + 1));
                    }
                    steps = steps + 1;
                }
            }
        }
    }

    pub fn check_winner(&self) -> (r: Option<Outcome>)
        ensures
            r == winner(self@),
    {
        let l0 = self.players[0].life <= 0;
        let l1 = self.players[1].life <= 0;
        if l0 && l1 {
            Some(Outcome::Draw)
        } else if l1 {
            Some(Outcome::Win(0))
        } else if l0 {
            Some(Outcome::Win(1))
        } else {
            None
        }
    }
}

} // verus!

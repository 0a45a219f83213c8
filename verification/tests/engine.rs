use fab::agents::{CombatDummyAgent, GreedyAttackAgent, RandomAgent};
use fab::{Action, CardDb, Deck, Game, Outcome};

fn aurora_vs_dummy(seed: u64) -> (Outcome, u32) {
    let db = CardDb::load();
    let aurora = Deck::aurora_sample(&db);
    let dummy = Deck::combat_dummy(40);
    let mut g = Game::new(db, [aurora, dummy], seed);
    let mut a = GreedyAttackAgent::new("Aurora");
    let mut d = CombatDummyAgent::new();
    let o = g.run(&mut a, &mut d);
    (o, g.turn)
}

#[test]
fn aurora_kills_the_dummy() {
    let (o, turns) = aurora_vs_dummy(42);
    assert_eq!(o, Outcome::Win(0), "Aurora should always beat a passive dummy");
    assert!(turns > 0 && turns < 60, "unreasonable turn count: {turns}");
}

#[test]
fn deterministic_for_same_seed() {
    assert_eq!(aurora_vs_dummy(7), aurora_vs_dummy(7));
}

#[test]
fn legal_actions_always_include_end_turn() {
    let db = CardDb::load();
    let g = Game::new(db, [Deck::aurora_sample(&CardDb::load()), Deck::combat_dummy(40)], 1);
    assert!(g.legal_actions().contains(&Action::EndTurn));
}

#[test]
fn try_run_finishes_a_real_game() {
    let db = CardDb::load();
    let aurora = Deck::aurora_sample(&db);
    let mut g = Game::new(db, [aurora, Deck::combat_dummy(40)], 42);
    let mut a = GreedyAttackAgent::new("Aurora");
    let mut d = CombatDummyAgent::new();
    assert_eq!(g.try_run(&mut a, &mut d), Some(Outcome::Win(0)));
    assert!(g.players[1].life <= 0);
}

#[test]
fn try_run_refuses_two_passive_targets() {
    let db = CardDb::load();
    let mut g = Game::new(db, [Deck::combat_dummy(40), Deck::combat_dummy(40)], 3);
    let mut a = CombatDummyAgent::new();
    let mut b = CombatDummyAgent::new();
    assert_eq!(g.try_run(&mut a, &mut b), None);
}

#[test]
fn try_run_reports_a_finished_game_at_once() {
    let db = CardDb::load();
    let mut g = Game::new(db, [Deck::combat_dummy(40), Deck::combat_dummy(0)], 3);
    let mut a = CombatDummyAgent::new();
    let mut b = CombatDummyAgent::new();
    assert_eq!(g.try_run(&mut a, &mut b), Some(Outcome::Win(0)));
    assert_eq!(g.turn, 0);
}

use fab::agents::{CombatDummyAgent, GreedyAttackAgent};
use fab::series::{play_series, try_play_series};
use fab::{CardDb, Deck, Game, Outcome};
use fab::simulate::{simulate, try_simulate};

#[test]
fn series_adds_up_single_games() {
    let db = CardDb::load();
    let me = Deck::aurora_sample(&db);
    let dummy = Deck::combat_dummy(40);
    let mut a = GreedyAttackAgent::new("aurora");
    let mut d = CombatDummyAgent::new();
    let (wins, turns) = play_series(&db, &me, &dummy, &mut a, &mut d, 5, 100, false);
    let mut expect_turns = 0u64;
    for k in 0..5u64 {
        let mut g = Game::new(CardDb::load(), [me.duplicate(), dummy.duplicate()], 100 + k);
        let o = g.run(&mut GreedyAttackAgent::new("x"), &mut CombatDummyAgent::new());
        assert_eq!(o, Outcome::Win(0));
        expect_turns += g.turn as u64;
    }
    assert_eq!(wins, 5);
    assert_eq!(turns, expect_turns);
}

#[test]
fn alternating_series_swaps_seats() {
    let db = CardDb::load();
    let me = Deck::aurora_sample(&db);
    let dummy = Deck::combat_dummy(40);
    let mut a = GreedyAttackAgent::new("a");
    let mut b = GreedyAttackAgent::new("b");
    // On odd games the dummy sits in seat 0 with the greedy agent, and the
    // Aurora deck in seat 1 wins: every game is won by the Aurora side.
    let (wins, _) = play_series(&db, &me, &dummy, &mut a, &mut b, 4, 7, true);
    assert_eq!(wins, 4);
}

#[test]
fn seeds_wrap_around() {
    let db = CardDb::load();
    let me = Deck::aurora_sample(&db);
    let dummy = Deck::combat_dummy(40);
    let mut a = GreedyAttackAgent::new("a");
    let mut d = CombatDummyAgent::new();
    let (wins, turns) = play_series(&db, &me, &dummy, &mut a, &mut d, 3, u64::MAX - 1, false);
    assert_eq!(wins, 3);
    let mut g = Game::new(CardDb::load(), [me.duplicate(), dummy.duplicate()], 0);
    g.run(&mut GreedyAttackAgent::new("x"), &mut CombatDummyAgent::new());
    assert!(turns >= g.turn as u64);
}

#[test]
fn no_games_no_result() {
    let db = CardDb::load();
    let me = Deck::aurora_sample(&db);
    let dummy = Deck::combat_dummy(40);
    let mut a = GreedyAttackAgent::new("a");
    let mut d = CombatDummyAgent::new();
    assert_eq!(play_series(&db, &me, &dummy, &mut a, &mut d, 0, 1, false), (0, 0));
}

#[test]
fn simulate_tallies_goldfish_games() {
    let db = CardDb::load();
    let st = simulate(&db, 6, 1, false);
    assert_eq!(st.wins0, 6);
    assert_eq!(st.wins1, 0);
    assert_eq!(st.draws, 0);
    let mut total = 0u64;
    let mut fastest = u32::MAX;
    let mut slowest = 0u32;
    for n in 0..6u64 {
        let seed = 1u64.wrapping_add(n).wrapping_mul(0x100_0001);
        let mut g = Game::new(CardDb::load(), [Deck::aurora_sample(&db), Deck::combat_dummy(40)], seed);
        g.run(&mut GreedyAttackAgent::new("Aurora"), &mut CombatDummyAgent::new());
        total += g.turn as u64;
        fastest = fastest.min(g.turn);
        slowest = slowest.max(g.turn);
    }
    assert_eq!((st.total_turns, st.fastest, st.slowest), (total, fastest, slowest));
}

#[test]
fn simulate_mirror_is_deterministic_and_counts_every_game() {
    let db = CardDb::load();
    let a = simulate(&db, 5, 9, true);
    let b = simulate(&db, 5, 9, true);
    assert_eq!(a, b);
    assert_eq!(a.wins0 + a.wins1 + a.draws, 5);
    assert_eq!(simulate(&db, 0, 9, true).fastest, u32::MAX);
}

#[test]
fn try_play_series_matches_play_series() {
    let db = CardDb::load();
    let me = Deck::aurora_sample(&db);
    let dummy = Deck::combat_dummy(40);
    let r1 = play_series(&db, &me, &dummy, &mut GreedyAttackAgent::new("a"), &mut CombatDummyAgent::new(), 3, 9, false);
    let r2 = try_play_series(&db, &me, &dummy, &mut GreedyAttackAgent::new("a"), &mut CombatDummyAgent::new(), 3, 9, false);
    assert_eq!(r2, Some(r1));
}

#[test]
fn try_play_series_gives_up_on_two_dummies() {
    let db = CardDb::load();
    let dummy = Deck::combat_dummy(40);
    let r = try_play_series(&db, &dummy, &dummy, &mut CombatDummyAgent::new(), &mut CombatDummyAgent::new(), 2, 1, false);
    assert_eq!(r, None);
}

#[test]
fn try_simulate_matches_simulate() {
    let db = CardDb::load();
    assert_eq!(try_simulate(&db, 4, 11, false), Some(simulate(&db, 4, 11, false)));
    assert_eq!(try_simulate(&db, 0, 11, true), Some(simulate(&db, 0, 11, true)));
}

use fab::agents::{CombatDummyAgent, GreedyAttackAgent, RandomAgent};
use fab::{Agent, CardDb, Deck, Game, Outcome, PlayerState, Rng};

fn owned_cards(p: &PlayerState) -> Vec<String> {
    let mut v: Vec<String> = Vec::new();
    v.extend(p.deck.iter().cloned());
    v.extend(p.hand.iter().cloned());
    v.extend(p.pitch.iter().cloned());
    v.extend(p.graveyard.iter().cloned());
    v.extend(p.arsenal.iter().cloned());
    v.sort();
    v
}

#[test]
fn opening_hands_are_drawn_to_intellect() {
    let db = CardDb::load();
    let aurora = Deck::aurora_sample(&db);
    assert_eq!(aurora.cards.len(), 60);
    assert_eq!(aurora.life, 40);
    let g = Game::new(db, [aurora, Deck::combat_dummy(40)], 5);
    assert_eq!(g.players[0].hand.len(), 4);
    assert_eq!(g.players[0].deck.len(), 56);
    assert_eq!(g.players[1].hand.len(), 0);
    assert_eq!(g.turn, 0);
    assert_eq!(g.active, 0);
}

#[test]
fn cards_are_neither_created_nor_lost() {
    let db = CardDb::load();
    let aurora = Deck::aurora_sample(&db);
    let mut g = Game::new(db, [aurora, Deck::combat_dummy(40)], 11);
    let before0 = owned_cards(&g.players[0]);
    let before1 = owned_cards(&g.players[1]);
    let mut a = GreedyAttackAgent::new("Aurora");
    let mut d = CombatDummyAgent::new();
    g.run(&mut a, &mut d);
    assert_eq!(owned_cards(&g.players[0]), before0);
    assert_eq!(owned_cards(&g.players[1]), before1);
}

#[test]
fn life_never_rises() {
    let db = CardDb::load();
    let p0 = Deck::aurora_sample(&db);
    let p1 = Deck::aurora_sample(&db);
    let mut g = Game::new(db, [p0, p1], 3);
    let mut a = GreedyAttackAgent::new("greedy");
    let mut r = RandomAgent::new("random", 9);
    g.run(&mut a, &mut r);
    assert!(g.players[0].life <= 40);
    assert!(g.players[1].life <= 40);
}

#[test]
fn the_dummy_takes_all_the_damage() {
    let db = CardDb::load();
    let aurora = Deck::aurora_sample(&db);
    let mut g = Game::new(db, [aurora, Deck::combat_dummy(40)], 42);
    let mut a = GreedyAttackAgent::new("Aurora");
    let mut d = CombatDummyAgent::new();
    assert_eq!(g.run(&mut a, &mut d), Outcome::Win(0));
    assert_eq!(g.players[0].life, 40);
    assert!(g.players[1].life <= 0);
    assert!(g.players[1].graveyard.is_empty());
}

#[test]
fn a_player_out_of_cards_loses() {
    let db = CardDb::load();
    let empty = Deck {
        hero: "nobody".to_string(),
        life: 20,
        intellect: 4,
        weapon: None,
        equipment: Vec::new(),
        cards: Vec::new(),
    };
    let aurora = Deck::aurora_sample(&db);
    let mut g = Game::new(db, [empty, aurora], 1);
    let mut x = GreedyAttackAgent::new("x");
    let mut y = GreedyAttackAgent::new("y");
    assert_eq!(g.run(&mut x, &mut y), Outcome::Win(1));
    assert_eq!(g.turn, 0);
}

#[test]
fn greedy_beats_random_deterministically() {
    let run = |seed: u64| {
        let db = CardDb::load();
        let p0 = Deck::aurora_sample(&db);
        let p1 = Deck::aurora_sample(&db);
        let mut g = Game::new(db, [p0, p1], seed);
        let mut a = GreedyAttackAgent::new("greedy");
        let mut r = RandomAgent::new("random", seed);
        let o = g.run(&mut a, &mut r);
        (o, g.turn, g.players[0].life, g.players[1].life)
    };
    assert_eq!(run(21), run(21));
}

#[test]
fn the_dummy_never_acts() {
    let db = CardDb::load();
    let aurora = Deck::aurora_sample(&db);
    let g = Game::new(db, [aurora, Deck::combat_dummy(40)], 2);
    let mut d = CombatDummyAgent::new();
    let legal = g.legal_actions();
    assert_eq!(d.choose_action(&g, 0, &legal), fab::Action::EndTurn);
    assert!(d.choose_blocks(&g, 1, 5, false).is_empty());
}

#[test]
fn random_blocks_at_most_one_card_under_dominate() {
    let db = CardDb::load();
    let aurora = Deck::aurora_sample(&db);
    let g = Game::new(db, [aurora, Deck::combat_dummy(40)], 8);
    for seed in 0..20u64 {
        let mut r = RandomAgent::new("r", seed);
        assert!(r.choose_blocks(&g, 0, 4, true).len() <= 1);
        let picks = r.choose_blocks(&g, 0, 4, false);
        assert!(picks.iter().all(|&i| i < 4));
    }
}

#[test]
fn generator_is_deterministic_and_bounded() {
    let mut a = Rng::new(99);
    let mut b = Rng::new(99);
    for _ in 0..50 {
        assert_eq!(a.next_u64(), b.next_u64());
    }
    let mut c = Rng::new(7);
    for n in 1..40usize {
        assert!(c.below(n) < n);
    }
    // SplitMix64 from seed 0: first output.
    assert_eq!(Rng::new(0).next_u64(), 0xE220_A839_7B1D_CDAF);
}

#[test]
fn shuffle_keeps_the_cards() {
    let mut rng = Rng::new(1234);
    let mut v: Vec<String> = (0..30).map(|i| format!("c{i}")).collect();
    let mut orig = v.clone();
    rng.shuffle(&mut v);
    assert_ne!(v, orig);
    v.sort();
    orig.sort();
    assert_eq!(v, orig);
}

#[test]
fn the_log_narrates_turns_and_attacks() {
    let db = CardDb::load();
    let aurora = Deck::aurora_sample(&db);
    let mut g = Game::new(db, [aurora, Deck::combat_dummy(40)], 42);
    let mut a = GreedyAttackAgent::new("Aurora");
    let mut d = CombatDummyAgent::new();
    g.run(&mut a, &mut d);
    assert_eq!(g.log[0], "Turn 1 - P0 (aurora-legacy-of-tempest) [life 40 vs 40]");
    let first_attack = g.log.iter().find(|l| l.starts_with("  P0 plays ")).expect("an attack");
    assert!(first_attack.contains("p) vs 0 block -> "), "{first_attack}");
    assert!(first_attack.contains(" dmg HIT [P1 life "), "{first_attack}");
}

#[test]
fn the_log_names_non_attacks() {
    let db = CardDb::from_tsv_text(
        "zap-red\tZap\t1\t0\t\t\tInstant\t\tRuneblade\tLightning\t\n\
         jab-red\tJab\t1\t0\t1\t2\tAction\tAttack\tGeneric\t\t\n",
    );
    let mut cards: Vec<String> = Vec::new();
    for _ in 0..4 {
        cards.push("zap-red".to_string());
    }
    let me = Deck::aurora_with_cards(&db, cards);
    let mut g = Game::new(db, [me, Deck::combat_dummy(3)], 1);
    let mut a = GreedyAttackAgent::new("Aurora");
    let mut d = CombatDummyAgent::new();
    g.run(&mut a, &mut d);
    assert_eq!(g.log[1], "  P0 plays Zap (non-attack)");
}

#[test]
fn legal_plays_are_affordable() {
    for seed in 0..10u64 {
        let db = CardDb::load();
        let aurora = Deck::aurora_sample(&db);
        let mut g = Game::new(db, [aurora, Deck::combat_dummy(40)], seed);
        g.players[0].action_points = 1;
        let hand = &g.players[0].hand;
        let legal = g.legal_actions();
        assert!(legal.len() > 1, "seed {seed}: nothing playable");
        for a in legal {
            if let fab::Action::Play(i) = a {
                let cost = g.card(&hand[i]).unwrap().cost as u32;
                let rest: u32 = hand
                    .iter()
                    .enumerate()
                    .filter(|(j, _)| *j != i)
                    .map(|(_, id)| g.card(id).map(|c| c.pitch().value() as u32).unwrap_or(0))
                    .sum();
                assert!(cost <= rest, "seed {seed}: cost {cost} > pitch {rest}");
            }
        }
    }
}

#[test]
fn greedy_plays_the_best_legal_card() {
    let text = "weak-red\tWeak\t1\t0\t2\t2\tAction\tAttack\tGeneric\t\t\n\
                strong-red\tStrong\t1\t0\t5\t2\tAction\tAttack\tGeneric\t\t\n\
                fast-red\tFast\t1\t0\t1\t2\tAction\tAttack\tGeneric\t\tGo again\n";
    let db = CardDb::from_tsv_text(text);
    let me = Deck::aurora_with_cards(&db, vec!["weak-red".to_string(); 4]);
    let mut g = Game::new(db, [me, Deck::combat_dummy(40)], 1);
    g.players[0].action_points = 1;
    g.players[0].hand = vec!["weak-red".into(), "strong-red".into(), "fast-red".into()];
    let mut a = GreedyAttackAgent::new("g");
    let legal = g.legal_actions();
    assert_eq!(a.choose_action(&g, 0, &legal), fab::Action::Play(2));
    g.players[0].hand = vec!["weak-red".into(), "strong-red".into()];
    let legal = g.legal_actions();
    assert_eq!(a.choose_action(&g, 0, &legal), fab::Action::Play(1));
    // The greedy agent blocks only a hit that would be lethal, and then only
    // what it needs to survive it; under dominate with one card at most.
    g.players[1].hand = vec!["weak-red".into(), "strong-red".into(), "fast-red".into()];
    assert!(a.choose_blocks(&g, 1, 9, false).is_empty());
    g.players[1].life = 5;
    assert!(a.choose_blocks(&g, 1, 4, false).is_empty());
    assert_eq!(a.choose_blocks(&g, 1, 9, true).len(), 1);
    assert_eq!(a.choose_blocks(&g, 1, 5, false).len(), 1);
    assert_eq!(a.choose_blocks(&g, 1, 8, false).len(), 2);
}

#[test]
fn paying_pitches_the_fewest_cards() {
    let db = CardDb::load();
    let aurora = Deck::aurora_sample(&db);
    let mut g = Game::new(db, [aurora, Deck::combat_dummy(4)], 1);
    g.players[0].hand = vec![
        "adrenaline-rush-red".to_string(),
        "adrenaline-rush-yellow".to_string(),
        "adrenaline-rush-blue".to_string(),
        "adrenaline-rush-red".to_string(),
    ];
    let mut a = GreedyAttackAgent::new("Aurora");
    let mut d = CombatDummyAgent::new();
    assert_eq!(g.run(&mut a, &mut d), Outcome::Win(0));
    assert_eq!(g.players[0].pitch, vec!["adrenaline-rush-blue".to_string()]);
    assert_eq!(
        g.players[0].hand,
        vec!["adrenaline-rush-yellow".to_string(), "adrenaline-rush-red".to_string()]
    );
    assert_eq!(g.players[0].graveyard, vec!["adrenaline-rush-red".to_string()]);
    assert_eq!(g.players[1].life, 0);
}

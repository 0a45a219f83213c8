use fab::optimize::{build_pool, initial_build, DeckBuild, Pool, DECK_SIZE, MAX_PER_NAME};
use fab::CardDb;
use fab::climb::{best_swap, build_score, hill_climb, try_best_swap, try_build_score, try_hill_climb, Objective};

/// Three pitch variants of a Runeblade attack "A", one Lightning attack "B",
/// one generic attack "C" (no candidate) and a Runeblade instant (no attack).
fn small_db() -> CardDb {
    CardDb::from_tsv_text(
        "a-red\tA\t1\t1\t5\t3\tAction\tAttack\tRuneblade\t\t\n\
         a-yellow\tA\t2\t1\t4\t3\tAction\tAttack\tRuneblade\t\t\n\
         a-blue\tA\t3\t1\t3\t3\tAction\tAttack\tRuneblade\t\t\n\
         b-red\tB\t1\t0\t6\t2\tAction\tAttack\tGeneric\tLightning\t\n\
         c-red\tC\t1\t0\t7\t2\tAction\tAttack\tGeneric\t\t\n\
         zap-red\tZap\t1\t0\t\t\tInstant\t\tRuneblade\tLightning\t\n",
    )
}

/// Twenty-five Runeblade attack names, one card each, all power 1.
fn wide_db() -> CardDb {
    let mut text = String::new();
    for i in 0..25 {
        text.push_str(&format!("n{i:02}-red\tN{i:02}\t1\t0\t1\t2\tAction\tAttack\tRuneblade\t\t\n"));
    }
    CardDb::from_tsv_text(&text)
}

fn strings(v: &[&str]) -> Vec<String> {
    v.iter().map(|s| s.to_string()).collect()
}

#[test]
fn pool_takes_the_strongest_names() {
    let db = small_db();
    let one = build_pool(&db, 1);
    assert_eq!(one.ids, strings(&["b-red"]));
    assert_eq!(one.names, strings(&["B"]));
    let two = build_pool(&db, 2);
    assert_eq!(two.ids, strings(&["a-blue", "a-red", "a-yellow", "b-red"]));
    assert_eq!(two.names, strings(&["A", "A", "A", "B"]));
    let all = build_pool(&db, 10);
    assert_eq!(all.ids.len(), 4);
    assert_eq!(all.name_of("a-red"), Some("A"));
    assert_eq!(all.name_of("c-red"), None);
}

#[test]
fn starting_build_uses_the_strongest_variant() {
    let db = small_db();
    let pool = build_pool(&db, 2);
    let b = initial_build(&db, &pool);
    assert_eq!(b.count("a-red"), 3);
    assert_eq!(b.count("b-red"), 3);
    assert_eq!(b.count("a-blue"), 0);
    assert_eq!(b.total(), 6);
    assert_eq!(b.to_cards(), strings(&["a-red", "a-red", "a-red", "b-red", "b-red", "b-red"]));
}

#[test]
fn starting_build_fills_a_deck_round_robin() {
    let db = wide_db();
    let pool = build_pool(&db, 30);
    assert_eq!(pool.ids.len(), 25);
    let b = initial_build(&db, &pool);
    assert_eq!(b.total(), DECK_SIZE);
    // 60 cards over 25 names: the first 10 names get 3, the rest 2.
    assert_eq!(b.count("n00-red"), 3);
    assert_eq!(b.count("n09-red"), 3);
    assert_eq!(b.count("n10-red"), 2);
    assert_eq!(b.count("n24-red"), 2);
    assert_eq!(b.to_cards().len(), 60);
}

#[test]
fn empty_pool_gives_an_empty_build() {
    let db = CardDb::load();
    let pool = build_pool(&db, 24);
    assert!(pool.ids.is_empty());
    let b = initial_build(&db, &pool);
    assert_eq!(b.total(), 0);
    assert!(b.to_cards().is_empty());
}

#[test]
fn swaps_respect_the_name_limit_and_the_deck_size() {
    let db = wide_db();
    let pool = build_pool(&db, 30);
    let b = initial_build(&db, &pool);
    // n20 has 2 copies: one more is allowed.
    let s = b.try_swap(&pool, "n00-red", "n20-red").expect("legal swap");
    assert_eq!(s.count("n00-red"), 2);
    assert_eq!(s.count("n20-red"), 3);
    assert_eq!(s.total(), 60);
    // n00 already has 3 copies: one more breaks the limit.
    assert!(b.try_swap(&pool, "n20-red", "n00-red").is_none());
    // A card for itself is no trade.
    assert!(b.try_swap(&pool, "n20-red", "n20-red").is_none());
    assert!(s.name_total(&pool, "N20") <= MAX_PER_NAME);
}

#[test]
fn swaps_need_a_full_deck() {
    let db = small_db();
    let pool = build_pool(&db, 2);
    let b = initial_build(&db, &pool);
    assert!(b.try_swap(&pool, "a-red", "a-blue").is_none());
    assert!(b.candidate_swaps(&pool).is_empty());
}

#[test]
fn candidate_swaps_list_every_legal_trade() {
    let db = wide_db();
    let pool = build_pool(&db, 30);
    let b = initial_build(&db, &pool);
    let c = b.candidate_swaps(&pool);
    // 25 cards to take out; the 15 names at 2 copies can take one more.
    assert_eq!(c.len(), 10 * 15 + 15 * 14);
    assert_eq!(c[0].0, "n00-red");
    assert_eq!(c[0].1, "n10-red");
    for (out, inn, built) in &c {
        assert_eq!(built.total(), 60);
        assert_eq!(built.count(out), b.count(out) - 1);
        assert_eq!(built.count(inn), b.count(inn) + 1);
    }
}

#[test]
fn add_then_remove_gives_back_the_build() {
    let mut b = DeckBuild::new();
    b.add_one("x".to_string());
    b.add_one("a".to_string());
    b.add_one("x".to_string());
    assert_eq!(b.count("x"), 2);
    assert_eq!(b.ids(), strings(&["a", "x"]));
    let before = b.to_cards();
    b.add_one("m".to_string());
    assert_eq!(b.ids(), strings(&["a", "m", "x"]));
    b.remove_one("m");
    assert_eq!(b.to_cards(), before);
    b.remove_one("a");
    assert_eq!(b.count("a"), 0);
    assert_eq!(b.ids(), strings(&["x"]));
    assert_eq!(b.total(), 2);
}

#[test]
fn rows_put_the_most_copies_first() {
    let mut b = DeckBuild::new();
    for id in ["c", "a", "b", "b", "a", "b"] {
        b.add_one(id.to_string());
    }
    let rows = b.rows();
    assert_eq!(rows, vec![("b".to_string(), 3), ("a".to_string(), 2), ("c".to_string(), 1)]);
}

#[test]
fn pitch_curve_counts_each_colour() {
    let db = small_db();
    let mut b = DeckBuild::new();
    for id in ["a-red", "a-red", "a-yellow", "a-blue", "a-blue", "a-blue", "unknown"] {
        b.add_one(id.to_string());
    }
    assert_eq!(b.pitch_curve(&db), (2, 1, 3));
}

#[test]
fn name_totals_follow_the_pool() {
    let db = small_db();
    let pool: Pool = build_pool(&db, 2);
    let mut b = DeckBuild::new();
    for id in ["a-red", "a-blue", "b-red", "x"] {
        b.add_one(id.to_string());
    }
    assert_eq!(b.name_total(&pool, "A"), 2);
    assert_eq!(b.name_total(&pool, "B"), 1);
    assert_eq!(b.name_total(&pool, "C"), 0);
}

#[test]
fn hill_climb_stops_at_a_local_optimum() {
    let db = wide_db();
    let pool = build_pool(&db, 30);
    let b = initial_build(&db, &pool);
    // Every card is the same, so no swap changes the score: the start is a
    // local optimum and the climb takes no step.
    let start = build_score(&db, &b, Objective::Goldfish, 2, 5);
    assert!(start < 0);
    assert!(best_swap(&db, &pool, &b, Objective::Goldfish, 2, 5).is_none());
    let (end, steps) = hill_climb(&db, &pool, b, Objective::Goldfish, 2, 5, 3);
    assert!(steps.is_empty());
    assert_eq!(end.total(), 60);
}

#[test]
fn winrate_scores_count_games_won() {
    let db = wide_db();
    let pool = build_pool(&db, 30);
    let b = initial_build(&db, &pool);
    let s = build_score(&db, &b, Objective::Winrate, 4, 1);
    assert!((0..=4).contains(&s));
}

#[test]
fn hill_climb_steps_raise_the_score() {
    let mut text = String::new();
    for i in 0..24 {
        text.push_str(&format!("n{i:02}-red\tN{i:02}\t1\t0\t1\t2\tAction\tAttack\tRuneblade\t\t\n"));
    }
    text.push_str("n24-red\tN24\t1\t0\t9\t2\tAction\tAttack\tRuneblade\t\t\n");
    let db = CardDb::from_tsv_text(&text);
    let pool = build_pool(&db, 30);
    let b = initial_build(&db, &pool);
    let start = build_score(&db, &b, Objective::Goldfish, 2, 5);
    let (end, steps) = hill_climb(&db, &pool, b, Objective::Goldfish, 2, 5, 2);
    assert!(steps.len() <= 2);
    let mut last = start;
    for (out, inn, s) in &steps {
        assert_ne!(out, inn);
        assert!(*s > last, "a step must raise the score");
        last = *s;
    }
    assert_eq!(end.total(), 60);
    assert_eq!(build_score(&db, &end, Objective::Goldfish, 2, 5), last);
}

#[test]
fn try_forms_of_the_climb_agree() {
    let db = wide_db();
    let pool = build_pool(&db, 30);
    let b = initial_build(&db, &pool);
    let s = build_score(&db, &b, Objective::Goldfish, 2, 5);
    assert_eq!(try_build_score(&db, &b, Objective::Goldfish, 2, 5), Some(s));
    assert!(matches!(try_best_swap(&db, &pool, &b, Objective::Goldfish, 2, 5), Some(None)));
    let b2 = initial_build(&db, &pool);
    let r = try_hill_climb(&db, &pool, b2, Objective::Goldfish, 2, 5, 3).expect("the games finish");
    assert!(r.1.is_empty());
    assert_eq!(r.0.total(), 60);
}

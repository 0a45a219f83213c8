//! The deck optimizer's hill climb: score a build by games, take the best
//! single-card swap while one improves the score, stop at a local optimum.

use crate::agents::{CombatDummyAgent, GreedyAttackAgent};
use crate::card::{strs, CardView};
use crate::db::CardDb;
use crate::deck::{is_aurora_deck, is_dummy_deck, sample_cards, Deck};
use crate::optimize::{add_spec, cards_of, remove_spec, swaps_upto, DeckBuild, Pool};
use crate::series::{series, series_ok, try_play_series};
use vstd::prelude::*;

verus! {

/// What the optimizer maximises.
#[derive(Debug, Clone, Copy, PartialEq, Eq, Structural)]
pub enum Objective {
    /// Kill the combat dummy fast: the score is minus the total turns.
    Goldfish,
    /// Beat the sample Aurora deck: the score is the games won.
    Winrate,
}

/// The decks a score is measured with: `me` is the Aurora deck around the main
/// deck `cards`; `other` is the sample Aurora deck (`Winrate`) or the combat
/// dummy with 40 life (`Goldfish`).
pub open spec fn score_decks(
    db: Seq<CardView>,
    cards: Seq<Seq<char>>,
    objective: Objective,
    me: Deck,
    other: Deck,
) -> bool {
    &&& is_aurora_deck(db, cards, me)
    &&& match objective {
        Objective::Winrate => is_aurora_deck(db, sample_cards(db), other),
        Objective::Goldfish => is_dummy_deck(other, 40),
    }
}

/// The score of `me` over `games` games from `seed`: with `Winrate` the games it
/// wins against `other` (greedy agents on both sides, seats alternating); with
/// `Goldfish` minus the total turns its greedy agent takes against the dummy.
pub open spec fn deck_score(
    db: Seq<CardView>,
    me: Deck,
    other: Deck,
    ga: GreedyAttackAgent,
    gb: GreedyAttackAgent,
    objective: Objective,
    games: nat,
    seed: u64,
) -> int {
    match objective {
        Objective::Winrate => series(db, me, other, ga, gb, games, seed, true).0 as int,
        Objective::Goldfish => -(series(db, me, other, ga, CombatDummyAgent, games, seed, false).1 as int),
    }
}

/// Every game of the score finishes within the engine's integers.
pub open spec fn score_games_ok(
    db: Seq<CardView>,
    me: Deck,
    other: Deck,
    ga: GreedyAttackAgent,
    gb: GreedyAttackAgent,
    objective: Objective,
    games: nat,
    seed: u64,
) -> bool {
    match objective {
        Objective::Winrate => series_ok(db, me, other, ga, gb, games, seed, true),
        Objective::Goldfish => series_ok(db, me, other, ga, CombatDummyAgent, games, seed, false),
    }
}

/// A main deck whose score can be measured: its games finish, whatever the
/// decks' and agents' names.
pub open spec fn scorable(
    db: Seq<CardView>,
    cards: Seq<Seq<char>>,
    objective: Objective,
    games: nat,
    seed: u64,
) -> bool {
    forall|me: Deck, other: Deck, ga: GreedyAttackAgent, gb: GreedyAttackAgent|
        score_decks(db, cards, objective, me, other) ==> #[trigger] score_games_ok(
            db,
            me,
            other,
            ga,
            gb,
            objective,
            games,
            seed,
        )
}

/// `v` is the score of the main deck `cards`.
pub open spec fn is_score(
    db: Seq<CardView>,
    cards: Seq<Seq<char>>,
    objective: Objective,
    games: nat,
    seed: u64,
    v: int,
) -> bool {
    exists|me: Deck, other: Deck, ga: GreedyAttackAgent, gb: GreedyAttackAgent|
        score_decks(db, cards, objective, me, other) && v == #[trigger] deck_score(
            db,
            me,
            other,
            ga,
            gb,
            objective,
            games,
            seed,
        )
}

/// The build a swap (card out, card in) gives.
pub open spec fn swap_result(s: Seq<(Seq<char>, u32)>, w: (Seq<char>, Seq<char>)) -> Seq<
    (Seq<char>, u32),
> {
    add_spec(remove_spec(s, w.0), w.1)
}

/// The build and every build one legal swap away can be scored.
pub open spec fn neighbours_scorable(
    db: Seq<CardView>,
    s: Seq<(Seq<char>, u32)>,
    ids: Seq<Seq<char>>,
    names: Seq<Seq<char>>,
    objective: Objective,
    games: nat,
    seed: u64,
) -> bool {
    let sw = swaps_upto(s, ids, names, s.len() as int);
    &&& scorable(db, cards_of(s), objective, games, seed)
    &&& forall|k: int|
        0 <= k < sw.len() ==> scorable(
            db,
            cards_of(swap_result(s, #[trigger] sw[k])),
            objective,
            games,
            seed,
        )
}

/// `cur` is a score of the build, and `scores` holds a score of each legal swap,
/// in `candidate_swaps` order.
pub open spec fn scores_of_swaps(
    db: Seq<CardView>,
    s: Seq<(Seq<char>, u32)>,
    ids: Seq<Seq<char>>,
    names: Seq<Seq<char>>,
    objective: Objective,
    games: nat,
    seed: u64,
    cur: int,
    scores: Seq<int>,
) -> bool {
    let sw = swaps_upto(s, ids, names, s.len() as int);
    &&& is_score(db, cards_of(s), objective, games, seed, cur)
    &&& scores.len() == sw.len()
    &&& forall|k: int|
        0 <= k < sw.len() ==> is_score(
            db,
            cards_of(swap_result(s, #[trigger] sw[k])),
            objective,
            games,
            seed,
            scores[k],
        )
}

/// A local optimum: no legal single swap scores above the build.
pub open spec fn local_optimum(
    db: Seq<CardView>,
    s: Seq<(Seq<char>, u32)>,
    ids: Seq<Seq<char>>,
    names: Seq<Seq<char>>,
    objective: Objective,
    games: nat,
    seed: u64,
) -> bool {
    exists|cur: int, scores: Seq<int>|
        #[trigger] scores_of_swaps(db, s, ids, names, objective, games, seed, cur, scores)
            && forall|k: int| 0 <= k < scores.len() ==> #[trigger] scores[k] <= cur
}

/// The score of a build (see `deck_score`).
pub fn build_score(db: &CardDb, b: &DeckBuild, objective: Objective, games: u32, seed: u64) -> (r:
    i64)
    requires
        scorable(db@, cards_of(b@), objective, games as nat, seed),
    ensures
        is_score(db@, cards_of(b@), objective, games as nat, seed, r as int),
{
    match try_build_score(db, b, objective, games, seed) {
        Some(v) => v,
        None => {
            // `try_build_score` gives up only on a build that is not scorable.
            proof {
                assert(false);
            }
            0
        },
    }
}

/// `build_score` where its games finish: `None` exactly when one of the games
/// it plays does not (see `score_games_ok`), and then the build is not
/// `scorable`.
pub fn try_build_score(db: &CardDb, b: &DeckBuild, objective: Objective, games: u32, seed: u64) -> (r:
    Option<i64>)
    ensures
        exists|me: Deck, other: Deck, ga: GreedyAttackAgent, gb: GreedyAttackAgent|
            {
                &&& score_decks(db@, cards_of(b@), objective, me, other)
                &&& (r is Some <==> #[trigger] score_games_ok(
                    db@,
                    me,
                    other,
                    ga,
                    gb,
                    objective,
                    games as nat,
                    seed,
                ))
                &&& r matches Some(v) ==> v == deck_score(
                    db@,
                    me,
                    other,
                    ga,
                    gb,
                    objective,
                    games as nat,
                    seed,
                )
            },
        r is None ==> !scorable(db@, cards_of(b@), objective, games as nat, seed),
        r matches Some(v) ==> is_score(db@, cards_of(b@), objective, games as nat, seed, v as int),
{
    let me = Deck::aurora_with_cards(db, b.to_cards());
    match objective {
        Objective::Winrate => {
            let opp = Deck::aurora_sample(db);
            let mut a0 = GreedyAttackAgent::new("a0");
            let mut a1 = GreedyAttackAgent::new("a1");
            let ghost (g0, g1) = (a0, a1);
            assert(score_decks(db@, cards_of(b@), objective, me, opp));
            match try_play_series(db, &me, &opp, &mut a0, &mut a1, games, seed, true) {
                Some((wins, _)) => {
                    assert(wins as int == deck_score(db@, me, opp, g0, g1, objective, games as nat, seed));
                    assert(score_games_ok(db@, me, opp, g0, g1, objective, games as nat, seed));
                    Some(wins as i64)
                },
                None => {
                    assert(!score_games_ok(db@, me, opp, g0, g1, objective, games as nat, seed));
                    None
                },
            }
        },
        Objective::Goldfish => {
            let dummy = Deck::combat_dummy(40);
            let mut a = GreedyAttackAgent::new("aurora");
            let mut d = CombatDummyAgent::new();
            let ghost g0 = a;
            assert(d == CombatDummyAgent);
            assert(score_decks(db@, cards_of(b@), objective, me, dummy));
            match try_play_series(db, &me, &dummy, &mut a, &mut d, games, seed, false) {
                Some((_, turns)) => {
                    assert(-(turns as int) == deck_score(
                        db@,
                        me,
                        dummy,
                        g0,
                        g0,
                        objective,
                        games as nat,
                        seed,
                    ));
                    assert(score_games_ok(db@, me, dummy, g0, g0, objective, games as nat, seed));
                    Some(-(turns as i64))
                },
                None => {
                    assert(!score_games_ok(db@, me, dummy, g0, g0, objective, games as nat, seed));
                    None
                },
            }
        },
    }
}

/// What `best_swap` gives for `build`: with `cur` a score of `build` and
/// `scores` the scores of its candidate swaps in `candidate_swaps` order, `None`
/// when no swap scores above `cur`; otherwise the first swap of highest score,
/// the build it gives and that score.
pub open spec fn best_swap_result(
    db: Seq<CardView>,
    build: Seq<(Seq<char>, u32)>,
    ids: Seq<Seq<char>>,
    names: Seq<Seq<char>>,
    objective: Objective,
    games: nat,
    seed: u64,
    r: Option<(String, String, DeckBuild, i64)>,
) -> bool {
    exists|cur: int, scores: Seq<int>|
        {
            let sw = swaps_upto(build, ids, names, build.len() as int);
            &&& #[trigger] scores_of_swaps(db, build, ids, names, objective, games, seed, cur, scores)
            &&& match r {
                None => forall|k: int| 0 <= k < scores.len() ==> scores[k] <= cur,
                Some(x) => exists|k: int|
                    {
                        &&& 0 <= k < sw.len()
                        &&& (x.0@, x.1@) == sw[k]
                        &&& x.2@ == swap_result(build, sw[k])
                        &&& x.3 == scores[k]
                        &&& scores[k] > cur
                        &&& forall|j: int| 0 <= j < scores.len() ==> scores[j] <= scores[k]
                        &&& forall|j: int| 0 <= j < k ==> #[trigger] scores[j] < scores[k]
                    },
            }
        }
}

/// The best single-card swap of `build`: among the legal swaps, in
/// `candidate_swaps` order, the first with the highest score, if that score is
/// above the build's own; with its score (see `best_swap_result`).
pub fn best_swap(
    db: &CardDb,
    pool: &Pool,
    build: &DeckBuild,
    objective: Objective,
    games: u32,
    seed: u64,
) -> (r: Option<(String, String, DeckBuild, i64)>)
    requires
        pool.ids@.len() == pool.names@.len(),
        neighbours_scorable(
            db@,
            build@,
            strs(pool.ids@),
            strs(pool.names@),
            objective,
            games as nat,
            seed,
        ),
    ensures
        best_swap_result(
            db@,
            build@,
            strs(pool.ids@),
            strs(pool.names@),
            objective,
            games as nat,
            seed,
            r,
        ),
{
    match try_best_swap(db, pool, build, objective, games, seed) {
        Some(r) => r,
        None => {
            // `try_best_swap` gives up only where a neighbour is not scorable.
            proof {
                assert(false);
            }
            None
        },
    }
}

/// `best_swap` where its games finish: `None` when a game of the build or of
/// one of its candidate swaps does not, and then not all of them are scorable.
pub fn try_best_swap(
    db: &CardDb,
    pool: &Pool,
    build: &DeckBuild,
    objective: Objective,
    games: u32,
    seed: u64,
) -> (r: Option<Option<(String, String, DeckBuild, i64)>>)
    requires
        pool.ids@.len() == pool.names@.len(),
    ensures
        r is None ==> !neighbours_scorable(
            db@,
            build@,
            strs(pool.ids@),
            strs(pool.names@),
            objective,
            games as nat,
            seed,
        ),
        r matches Some(x) ==> best_swap_result(
            db@,
            build@,
            strs(pool.ids@),
            strs(pool.names@),
            objective,
            games as nat,
            seed,
            x,
        ),
{
    let ghost ids = strs(pool.ids@);
    let ghost names = strs(pool.names@);
    let ghost sw = swaps_upto(build@, ids, names, build@.len() as int);
    let cur = match try_build_score(db, build, objective, games, seed) {
        Some(v) => v,
        None => {
            return None;
        },
    };
    let mut cands = build.candidate_swaps(pool);
    let n = cands.len();
    let ghost mut scores: Seq<int> = Seq::empty();
    let mut best: Option<(usize, i64)> = None;
    let mut k: usize = 0;
    while k < n
        invariant
            n == cands@.len(),
            crate::optimize::swap_views(cands@) == sw,
            forall|t: int|
                0 <= t < cands@.len() ==> (#[trigger] cands@[t]).2@ == add_spec(
                    remove_spec(build@, cands@[t].0@),
                    cands@[t].1@,
                ),
            ids == strs(pool.ids@),
            names == strs(pool.names@),
            is_score(db@, cards_of(build@), objective, games as nat, seed, cur as int),
            sw == swaps_upto(build@, ids, names, build@.len() as int),
            k <= n,
            scores.len() == k,
            forall|t: int|
                0 <= t < k ==> is_score(
                    db@,
                    cards_of(swap_result(build@, #[trigger] sw[t])),
                    objective,
                    games as nat,
                    seed,
                    scores[t],
                ),
            match best {
                None => forall|t: int| 0 <= t < k ==> scores[t] <= cur,
                Some((bk, bs)) => {
                    &&& bk < k
                    &&& bs == scores[bk as int]
                    &&& bs > cur
                    &&& forall|t: int| 0 <= t < k ==> scores[t] <= bs
                    &&& forall|t: int| 0 <= t < bk ==> #[trigger] scores[t] < bs
                },
            },
        decreases n - k,
    {
        assert(cands@[k as int].2@ == swap_result(build@, sw[k as int]));
        let s = match try_build_score(db, &cands[k].2, objective, games, seed) {
            Some(v) => v,
            None => {
                return None;
            },
        };
        proof {
            scores = scores.push(s as int);
        }
        let better = match best {
            None => s > cur,
            Some((_, bs)) => s > bs,
        };
        if better {
            best = Some((k, s));
        }
        k = k + 1;
    }
    proof {
        assert(scores_of_swaps(db@, build@, ids, names, objective, games as nat, seed, cur as int, scores));
    }
    match best {
        None => Some(None),
        Some((bk, bs)) => {
            let (a, b, nb) = cands.remove(bk);
            Some(Some((a, b, nb, bs)))
        },
    }
}



/// One step of the climb from build `s` to build `t`: with `cur` a score of `s`
/// and `scores` the scores of its candidate swaps (in `candidate_swaps` order),
/// taking `out` and putting `inn` is the first swap of highest score, that
/// score is `score` and above `cur`, and `t` is the build the swap gives.
pub open spec fn climb_step(
    db: Seq<CardView>,
    s: Seq<(Seq<char>, u32)>,
    t: Seq<(Seq<char>, u32)>,
    ids: Seq<Seq<char>>,
    names: Seq<Seq<char>>,
    objective: Objective,
    games: nat,
    seed: u64,
    out: Seq<char>,
    inn: Seq<char>,
    score: int,
) -> bool {
    let sw = swaps_upto(s, ids, names, s.len() as int);
    &&& t == swap_result(s, (out, inn))
    &&& exists|cur: int, scores: Seq<int>|
        #[trigger] scores_of_swaps(db, s, ids, names, objective, games, seed, cur, scores)
            && exists|k: int|
            {
                &&& 0 <= k < sw.len()
                &&& sw[k] == (out, inn)
                &&& #[trigger] scores[k] == score
                &&& score > cur
                &&& forall|j: int| 0 <= j < scores.len() ==> scores[j] <= score
                &&& forall|j: int| 0 <= j < k ==> #[trigger] scores[j] < score
            }
}

/// What a climb from `build` gives: at most `max_iters` steps; the builds
/// `trail` it passes through, from `build` to the result, each step taking the
/// best swap of the build before it (see `climb_step`); and, with fewer steps
/// than `max_iters`, a local optimum.
pub open spec fn climb_result(
    db: Seq<CardView>,
    build: Seq<(Seq<char>, u32)>,
    ids: Seq<Seq<char>>,
    names: Seq<Seq<char>>,
    objective: Objective,
    games: nat,
    seed: u64,
    max_iters: u32,
    r: (DeckBuild, Vec<(String, String, i64)>),
) -> bool {
    &&& r.1@.len() <= max_iters
    &&& exists|trail: Seq<Seq<(Seq<char>, u32)>>|
        {
            &&& trail.len() == r.1@.len() + 1
            &&& trail[0] == build
            &&& trail.last() == r.0@
            &&& forall|i: int|
                0 <= i < r.1@.len() ==> #[trigger] climb_step(
                    db,
                    trail[i],
                    trail[i + 1],
                    ids,
                    names,
                    objective,
                    games,
                    seed,
                    r.1@[i].0@,
                    r.1@[i].1@,
                    r.1@[i].2 as int,
                )
        }
    &&& r.1@.len() < max_iters ==> local_optimum(db, r.0@, ids, names, objective, games, seed)
}

/// Hill climbing from `build`: at most `max_iters` times, apply the best swap
/// (see `best_swap`) while one improves the score. Gives the final build and,
/// for each step, the card taken out, the card put in and the new score. Fewer
/// steps than `max_iters` means the climb stopped at a local optimum.
pub fn hill_climb(
    db: &CardDb,
    pool: &Pool,
    build: DeckBuild,
    objective: Objective,
    games: u32,
    seed: u64,
    max_iters: u32,
) -> (r: (DeckBuild, Vec<(String, String, i64)>))
    requires
        pool.ids@.len() == pool.names@.len(),
        forall|cards: Seq<Seq<char>>| #[trigger]
            scorable(db@, cards, objective, games as nat, seed),
    ensures
        climb_result(
            db@,
            build@,
            strs(pool.ids@),
            strs(pool.names@),
            objective,
            games as nat,
            seed,
            max_iters,
            r,
        ),
{
    match try_hill_climb(db, pool, build, objective, games, seed, max_iters) {
        Some(r) => r,
        None => {
            // `try_hill_climb` gives up only on a build that is not scorable.
            proof {
                let cards = choose|cards: Seq<Seq<char>>|
                    !scorable(db@, cards, objective, games as nat, seed);
                assert(scorable(db@, cards, objective, games as nat, seed));
                assert(false);
            }
            (DeckBuild::new(), Vec::new())
        },
    }
}

/// `hill_climb` where its games finish: `None` when a game of a build it
/// scores does not, and then some main deck is not `scorable`.
pub fn try_hill_climb(
    db: &CardDb,
    pool: &Pool,
    build: DeckBuild,
    objective: Objective,
    games: u32,
    seed: u64,
    max_iters: u32,
) -> (r: Option<(DeckBuild, Vec<(String, String, i64)>)>)
    requires
        pool.ids@.len() == pool.names@.len(),
    ensures
        r is None ==> exists|cards: Seq<Seq<char>>|
            !scorable(db@, cards, objective, games as nat, seed),
        r matches Some(v) ==> climb_result(
            db@,
            build@,
            strs(pool.ids@),
            strs(pool.names@),
            objective,
            games as nat,
            seed,
            max_iters,
            v,
        ),
{
    let ghost b0 = build@;
    let mut b = build;
    let mut steps: Vec<(String, String, i64)> = Vec::new();
    let mut iter: u32 = 0;
    let ghost mut trail: Seq<Seq<(Seq<char>, u32)>> = seq![b0];
    while iter < max_iters
        invariant
            pool.ids@.len() == pool.names@.len(),
            iter <= max_iters,
            steps@.len() == iter,
            b0 == build@,
            trail.len() == steps@.len() + 1,
            trail[0] == b0,
            trail.last() == b@,
            forall|i: int|
                0 <= i < steps@.len() ==> #[trigger] climb_step(
                    db@,
                    trail[i],
                    trail[i + 1],
                    strs(pool.ids@),
                    strs(pool.names@),
                    objective,
                    games as nat,
                    seed,
                    steps@[i].0@,
                    steps@[i].1@,
                    steps@[i].2 as int,
                ),
        decreases max_iters - iter,
    {
        let ghost ids = strs(pool.ids@);
        let ghost names = strs(pool.names@);
        let ghost prev = b@;
        let found = match try_best_swap(db, pool, &b, objective, games, seed) {
            Some(x) => x,
            None => {
                proof {
                    let sw = swaps_upto(prev, ids, names, prev.len() as int);
                    if scorable(db@, cards_of(prev), objective, games as nat, seed) {
                        let k = choose|k: int|
                            0 <= k < sw.len() && !scorable(
                                db@,
                                cards_of(swap_result(prev, #[trigger] sw[k])),
                                objective,
                                games as nat,
                                seed,
                            );
                        assert(!scorable(
                            db@,
                            cards_of(swap_result(prev, sw[k])),
                            objective,
                            games as nat,
                            seed,
                        ));
                    }
                }
                return None;
            },
        };
        match found {
            Some((a, c, nb, s)) => {
                proof {
                    let (cur, scores) = choose|cur: int, scores: Seq<int>|
                        {
                            let sw = swaps_upto(prev, ids, names, prev.len() as int);
                            &&& #[trigger] scores_of_swaps(
                                db@,
                                prev,
                                ids,
                                names,
                                objective,
                                games as nat,
                                seed,
                                cur,
                                scores,
                            )
                            &&& exists|k: int|
                                {
                                    &&& 0 <= k < sw.len()
                                    &&& (a@, c@) == sw[k]
                                    &&& nb@ == swap_result(prev, sw[k])
                                    &&& s == scores[k]
                                    &&& scores[k] > cur
                                    &&& forall|j: int| 0 <= j < scores.len() ==> scores[j] <= scores[k]
                                    &&& forall|j: int| 0 <= j < k ==> #[trigger] scores[j] < scores[k]
                                }
                        };
                    let sw = swaps_upto(prev, ids, names, prev.len() as int);
                    let k = choose|k: int|
                        {
                            &&& 0 <= k < sw.len()
                            &&& (a@, c@) == sw[k]
                            &&& nb@ == swap_result(prev, sw[k])
                            &&& s == scores[k]
                            &&& scores[k] > cur
                            &&& forall|j: int| 0 <= j < scores.len() ==> scores[j] <= scores[k]
                            &&& forall|j: int| 0 <= j < k ==> #[trigger] scores[j] < scores[k]
                        };
                    assert(scores[k] == s as int);
                    assert(climb_step(
                        db@,
                        prev,
                        nb@,
                        ids,
                        names,
                        objective,
                        games as nat,
                        seed,
                        a@,
                        c@,
                        s as int,
                    ));
                }
                let ghost old_steps = steps@;
                steps.push((a, c, s));
                b = nb;
                proof {
                    let t2 = trail.push(b@);
                    assert forall|i: int| 0 <= i < steps@.len() implies #[trigger] climb_step(
                        db@,
                        t2[i],
                        t2[i + 1],
                        ids,
                        names,
                        objective,
                        games as nat,
                        seed,
                        steps@[i].0@,
                        steps@[i].1@,
                        steps@[i].2 as int,
                    ) by {
                        if i < old_steps.len() {
                            assert(steps@[i] == old_steps[i]);
                            assert(t2[i] == trail[i]);
                            assert(t2[i + 1] == trail[i + 1]);
                        } else {
                            assert(t2[i] == prev);
                        }
                    }
                    trail = t2;
                }
            },
            None => {
                return Some((b, steps));
            },
        }
        iter = iter + 1;
    }
    Some((b, steps))
}



} // verus!

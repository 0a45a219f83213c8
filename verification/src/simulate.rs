//! The simulator's batch: many games of the sample Aurora deck, against the
//! combat dummy or (in a mirror match) against a random-playing Aurora, with
//! the wins, draws and turn counts tallied.

use crate::agents::{CombatDummyAgent, GreedyAttackAgent, RandomAgent};
use crate::card::CardView;
use crate::db::CardDb;
use crate::deck::{is_aurora_deck, is_dummy_deck, same_deck, sample_cards, Deck};
use crate::game::{
    game_shaped, law_run_deterministic, new_game, run_finishes, run_model, Game, GameModel,
    Outcome,
};
use crate::series::finished;
use vstd::prelude::*;

verus! {

/// The tallies of a batch of games.
#[derive(Debug, Clone, Copy, PartialEq, Eq, Structural)]
pub struct SimStats {
    /// Games won by the Aurora deck in seat 0.
    pub wins0: u32,
    /// Games won by the player in seat 1.
    pub wins1: u32,
    pub draws: u32,
    /// Turns over all games.
    pub total_turns: u64,
    /// Fewest turns of a game (`u32::MAX` when there was none).
    pub fastest: u32,
    /// Most turns of a game.
    pub slowest: u32,
}

/// Seed of game `n`: `(seed + n) * 0x100_0001`, wrapping.
pub open spec fn sim_seed(seed: u64, n: u32) -> u64 {
    vstd::wrapping::u64_specs::wrapping_mul(
        vstd::wrapping::u64_specs::wrapping_add(seed, n as u64),
        0x100_0001u64,
    )
}

/// Seed of the random agent in game `n` of a mirror match.
pub open spec fn random_seed(seed: u64, n: u32) -> u64 {
    sim_seed(seed, n) ^ 0xABCDu64
}

/// Game `n` of a batch, before it is played: `aurora` in seat 0 against
/// `other`.
pub open spec fn sim_game(db: Seq<CardView>, aurora: Deck, other: Deck, seed: u64, n: u32) -> GameModel {
    new_game(db, aurora, other, sim_seed(seed, n))
}

/// How game `n` of a batch ends, with the greedy agent afterwards: against the
/// dummy agent, or in a mirror match against the random agent restarted from
/// `random_seed(seed, n)`.
pub open spec fn sim_round(
    db: Seq<CardView>,
    aurora: Deck,
    other: Deck,
    ga: GreedyAttackAgent,
    rb: RandomAgent,
    seed: u64,
    n: u32,
    mirror: bool,
) -> (Outcome, u32, GreedyAttackAgent, RandomAgent) {
    if mirror {
        let r = finished(sim_game(db, aurora, other, seed, n), ga, rb.with_state(random_seed(seed, n)));
        (r.0, r.1.turn, r.2, r.3)
    } else {
        let r = finished(sim_game(db, aurora, other, seed, n), ga, CombatDummyAgent);
        (r.0, r.1.turn, r.2, rb)
    }
}

/// The tallies after the first `n` games, with the agents afterwards.
pub open spec fn sim_result(
    db: Seq<CardView>,
    aurora: Deck,
    other: Deck,
    ga: GreedyAttackAgent,
    rb: RandomAgent,
    n: nat,
    seed: u64,
    mirror: bool,
) -> (nat, nat, nat, nat, int, int, GreedyAttackAgent, RandomAgent)
    decreases n,
{
    if n == 0 {
        (0, 0, 0, 0, u32::MAX as int, 0, ga, rb)
    } else {
        let (w0, w1, dr, tt, fa, sl, x, y) = sim_result(
            db,
            aurora,
            other,
            ga,
            rb,
            (n - 1) as nat,
            seed,
            mirror,
        );
        let (o, t, x2, y2) = sim_round(db, aurora, other, x, y, seed, (n - 1) as u32, mirror);
        (
            w0 + if o == Outcome::Win(0) {
                1nat
            } else {
                0nat
            },
            w1 + if o is Win && o != Outcome::Win(0) {
                1nat
            } else {
                0nat
            },
            dr + if o is Draw {
                1nat
            } else {
                0nat
            },
            tt + t as nat,
            if (t as int) < fa {
                t as int
            } else {
                fa
            },
            if (t as int) > sl {
                t as int
            } else {
                sl
            },
            x2,
            y2,
        )
    }
}

/// Every one of the first `n` games finishes within the engine's integers.
pub open spec fn sim_ok(
    db: Seq<CardView>,
    aurora: Deck,
    other: Deck,
    ga: GreedyAttackAgent,
    rb: RandomAgent,
    n: nat,
    seed: u64,
    mirror: bool,
) -> bool
    decreases n,
{
    if n == 0 {
        true
    } else {
        let r = sim_result(db, aurora, other, ga, rb, (n - 1) as nat, seed, mirror);
        let (x, y) = (r.6, r.7);
        &&& sim_ok(db, aurora, other, ga, rb, (n - 1) as nat, seed, mirror)
        &&& if mirror {
            run_finishes(
                sim_game(db, aurora, other, seed, (n - 1) as u32),
                x,
                y.with_state(random_seed(seed, (n - 1) as u32)),
            )
        } else {
            run_finishes(sim_game(db, aurora, other, seed, (n - 1) as u32), x, CombatDummyAgent)
        }
    }
}

/// The decks and agents a batch starts from: the sample Aurora deck in seat 0;
/// in seat 1 the combat dummy (40 life) or, in a mirror match, another sample
/// Aurora deck.
pub open spec fn sim_inputs(db: Seq<CardView>, aurora: Deck, other: Deck, mirror: bool) -> bool {
    &&& is_aurora_deck(db, sample_cards(db), aurora)
    &&& if mirror {
        is_aurora_deck(db, sample_cards(db), other)
    } else {
        is_dummy_deck(other, 40)
    }
}

proof fn lemma_sim_ok_prefix(
    db: Seq<CardView>,
    aurora: Deck,
    other: Deck,
    ga: GreedyAttackAgent,
    rb: RandomAgent,
    m: nat,
    n: nat,
    seed: u64,
    mirror: bool,
)
    requires
        m <= n,
        sim_ok(db, aurora, other, ga, rb, n, seed, mirror),
    ensures
        sim_ok(db, aurora, other, ga, rb, m, seed, mirror),
    decreases n,
{
    if m < n {
        lemma_sim_ok_prefix(db, aurora, other, ga, rb, m, (n - 1) as nat, seed, mirror);
    }
}

proof fn lemma_run_result<A0: crate::game::Agent, A1: crate::game::Agent>(
    g: GameModel,
    a0: A0,
    a1: A1,
    o: Outcome,
    r: GameModel,
    b0: A0,
    b1: A1,
    f: nat,
)
    requires
        run_model(g, a0, a1, f) == Some((o, r, b0, b1)),
    ensures
        finished(g, a0, a1) == (o, r, b0, b1),
{
    let c = choose|f: nat| run_model(g, a0, a1, f) is Some;
    law_run_deterministic(g, a0, a1, f, c);
}

/// Plays game `n` of a batch; `None` where it does not finish (see
/// `run_finishes`).
fn sim_one(
    db: &CardDb,
    aurora: &Deck,
    other: &Deck,
    ga: &mut GreedyAttackAgent,
    rb: &mut RandomAgent,
    seed: u64,
    n: u32,
    mirror: bool,
) -> (r: Option<(Outcome, u32)>)
    ensures
        r is Some <==> if mirror {
            run_finishes(
                sim_game(db@, *aurora, *other, seed, n),
                *old(ga),
                old(rb).with_state(random_seed(seed, n)),
            )
        } else {
            run_finishes(sim_game(db@, *aurora, *other, seed, n), *old(ga), CombatDummyAgent)
        },
        r matches Some(v) ==> (v.0, v.1, *final(ga), *final(rb)) == sim_round(
            db@,
            *aurora,
            *other,
            *old(ga),
            *old(rb),
            seed,
            n,
            mirror,
        ),
{
    let s = seed.wrapping_add(n as u64).wrapping_mul(0x100_0001);
    assert(s == sim_seed(seed, n));
    let x = aurora.duplicate();
    let y = other.duplicate();
    let ghost g0 = sim_game(db@, *aurora, *other, seed, n);
    proof {
        crate::series::lemma_new_game_same(db@, x, *aurora, y, *other, s);
    }
    let mut g = Game::new(db.clone(), [x, y], s);
    assert(g@ == g0);
    let ghost b0 = *ga;
    if mirror {
        rb.reseed(s ^ 0xABCD);
        let ghost b1 = *rb;
        let o = match g.try_run(ga, rb) {
            Some(o) => o,
            None => {
                return None;
            },
        };
        proof {
            let f = choose|f: nat| run_model(g0, b0, b1, f) == Some((o, g@, *ga, *rb));
            lemma_run_result(g0, b0, b1, o, g@, *ga, *rb, f);
        }
        Some((o, g.turn))
    } else {
        let mut d = CombatDummyAgent::new();
        let ghost b1 = d;
        assert(b1 == CombatDummyAgent);
        let o = match g.try_run(ga, &mut d) {
            Some(o) => o,
            None => {
                return None;
            },
        };
        proof {
            let f = choose|f: nat| run_model(g0, b0, b1, f) == Some((o, g@, *ga, d));
            lemma_run_result(g0, b0, b1, o, g@, *ga, d, f);
        }
        Some((o, g.turn))
    }
}

/// Plays `games` games of the sample Aurora deck (seat 0, greedy agent) against
/// the combat dummy, or in a mirror match against a second sample deck played by
/// a random agent seeded `seed'` ^ 0xABCD, where game `n` is seeded
/// `seed' = (seed + n) * 0x100_0001` (wrapping); and tallies wins, draws and
/// turns.
pub fn simulate(db: &CardDb, games: u32, seed: u64, mirror: bool) -> (r: SimStats)
    requires
        forall|aurora: Deck, other: Deck, ga: GreedyAttackAgent, rb: RandomAgent|
            sim_inputs(db@, aurora, other, mirror) ==> #[trigger] sim_ok(
                db@,
                aurora,
                other,
                ga,
                rb,
                games as nat,
                seed,
                mirror,
            ),
    ensures
        exists|aurora: Deck, other: Deck, ga: GreedyAttackAgent, rb: RandomAgent|
            {
                let t = #[trigger] sim_result(
                    db@,
                    aurora,
                    other,
                    ga,
                    rb,
                    games as nat,
                    seed,
                    mirror,
                );
                &&& sim_inputs(db@, aurora, other, mirror)
                &&& r.wins0 == t.0
                &&& r.wins1 == t.1
                &&& r.draws == t.2
                &&& r.total_turns == t.3
                &&& r.fastest == t.4
                &&& r.slowest == t.5
            },
{
    match try_simulate(db, games, seed, mirror) {
        Some(st) => st,
        None => {
            // `try_simulate` gives up only where `sim_ok` fails.
            proof {
                let (aurora, other, ga, rb) = choose|
                    aurora: Deck,
                    other: Deck,
                    ga: GreedyAttackAgent,
                    rb: RandomAgent,
                |
                    {
                        &&& sim_inputs(db@, aurora, other, mirror)
                        &&& !#[trigger] sim_ok(db@, aurora, other, ga, rb, games as nat, seed, mirror)
                    };
                assert(sim_ok(db@, aurora, other, ga, rb, games as nat, seed, mirror));
                assert(false);
            }
            SimStats { wins0: 0, wins1: 0, draws: 0, total_turns: 0, fastest: 0, slowest: 0 }
        },
    }
}

/// `simulate` where every game finishes: `None` exactly when one of the games
/// does not (see `sim_ok`).
pub fn try_simulate(db: &CardDb, games: u32, seed: u64, mirror: bool) -> (r: Option<SimStats>)
    ensures
        exists|aurora: Deck, other: Deck, ga: GreedyAttackAgent, rb: RandomAgent|
            {
                let t = #[trigger] sim_result(
                    db@,
                    aurora,
                    other,
                    ga,
                    rb,
                    games as nat,
                    seed,
                    mirror,
                );
                &&& sim_inputs(db@, aurora, other, mirror)
                &&& (r is Some <==> sim_ok(db@, aurora, other, ga, rb, games as nat, seed, mirror))
                &&& r matches Some(st) ==> {
                    &&& st.wins0 == t.0
                    &&& st.wins1 == t.1
                    &&& st.draws == t.2
                    &&& st.total_turns == t.3
                    &&& st.fastest == t.4
                    &&& st.slowest == t.5
                }
            },
{
    let aurora = Deck::aurora_sample(db);
    let other = if mirror {
        Deck::aurora_sample(db)
    } else {
        Deck::combat_dummy(40)
    };
    let mut ga = GreedyAttackAgent::new(
        if mirror {
            "Aurora-Greedy"
        } else {
            "Aurora"
        },
    );
    let mut rb = RandomAgent::new("Aurora-Random", 0);
    let ghost ga0 = ga;
    let ghost rb0 = rb;
    assert(sim_inputs(db@, aurora, other, mirror));
    let mut wins0: u32 = 0;
    let mut wins1: u32 = 0;
    let mut draws: u32 = 0;
    let mut total_turns: u64 = 0;
    let mut fastest: u32 = u32::MAX;
    let mut slowest: u32 = 0;
    let mut n: u32 = 0;
    while n < games
        invariant
            n <= games,
            sim_inputs(db@, aurora, other, mirror),
            sim_ok(db@, aurora, other, ga0, rb0, n as nat, seed, mirror),
            wins0 <= n,
            wins1 <= n,
            draws <= n,
            total_turns <= n * 0xFFFF_FFFFu64,
            ({
                let t = sim_result(db@, aurora, other, ga0, rb0, n as nat, seed, mirror);
                &&& wins0 == t.0
                &&& wins1 == t.1
                &&& draws == t.2
                &&& total_turns == t.3
                &&& fastest == t.4
                &&& slowest == t.5
                &&& ga == t.6
                &&& rb == t.7
            }),
        decreases games - n,
    {
        let (o, t) = match sim_one(db, &aurora, &other, &mut ga, &mut rb, seed, n, mirror) {
            Some(v) => v,
            None => {
                proof {
                    if sim_ok(db@, aurora, other, ga0, rb0, games as nat, seed, mirror) {
                        lemma_sim_ok_prefix(
                            db@,
                            aurora,
                            other,
                            ga0,
                            rb0,
                            (n + 1) as nat,
                            games as nat,
                            seed,
                            mirror,
                        );
                    }
                    let _ = sim_result(db@, aurora, other, ga0, rb0, games as nat, seed, mirror);
                }
                return None;
            },
        };
        match o {
            Outcome::Win(0) => wins0 = wins0 + 1,
            Outcome::Win(_) => wins1 = wins1 + 1,
            Outcome::Draw => draws = draws + 1,
        }
        total_turns = total_turns + t as u64;
        if t < fastest {
            fastest = t;
        }
        if t > slowest {
            slowest = t;
        }
        n = n + 1;
    }
    Some(SimStats { wins0, wins1, draws, total_turns, fastest, slowest })
}

} // verus!

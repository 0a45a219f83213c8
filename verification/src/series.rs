//! Batches of games between two decks: how often each side wins and how long
//! the games last. The deck optimizer scores a build with them.

use crate::card::CardView;
use crate::db::CardDb;
use crate::deck::{same_deck, Deck};
use crate::game::{
    game_shaped, law_run_deterministic, new_game, run_finishes, run_model, Agent, Game, GameModel,
    Outcome,
};
use vstd::prelude::*;

verus! {

/// How a finished game ends: outcome, final state and agents. A game that never
/// finishes gets no meaningful value here.
pub open spec fn finished<A0: Agent, A1: Agent>(g: GameModel, a0: A0, a1: A1) -> (
    Outcome,
    GameModel,
    A0,
    A1,
) {
    run_model(g, a0, a1, choose|f: nat| run_model(g, a0, a1, f) is Some)->0
}

/// Seed of game `k` of a series started at `seed0`: `seed0 + k`, wrapping.
pub open spec fn game_seed(seed0: u64, k: u32) -> u64 {
    vstd::wrapping::u64_specs::wrapping_add(seed0, k as u64)
}

/// Whether game `k` of a series puts the second deck in the first seat.
pub open spec fn swapped(alternate: bool, k: int) -> bool {
    alternate && k % 2 == 1
}

/// Game `k` of a series, before it is played.
#[verifier::opaque]
pub open spec fn series_game(
    db: Seq<CardView>,
    d0: Deck,
    d1: Deck,
    seed0: u64,
    alternate: bool,
    k: int,
) -> GameModel {
    if swapped(alternate, k) {
        new_game(db, d1, d0, game_seed(seed0, k as u32))
    } else {
        new_game(db, d0, d1, game_seed(seed0, k as u32))
    }
}

/// The first `n` games of a series: deck `d0` in seat 0 against `d1` in seat 1
/// (swapped on odd games when `alternate`), agent `a0` always in seat 0 and `a1`
/// in seat 1, game `k` seeded with `seed0 + k`. Gives the games won by `d0`'s
/// side, the total number of turns, and the agents afterwards.
pub open spec fn series<A0: Agent, A1: Agent>(
    db: Seq<CardView>,
    d0: Deck,
    d1: Deck,
    a0: A0,
    a1: A1,
    n: nat,
    seed0: u64,
    alternate: bool,
) -> (nat, nat, A0, A1)
    decreases n,
{
    if n == 0 {
        (0, 0, a0, a1)
    } else {
        let k = n - 1;
        let (w, t, x0, x1) = series(db, d0, d1, a0, a1, k as nat, seed0, alternate);
        let swap = swapped(alternate, k);
        let (o, fin, y0, y1) = finished(series_game(db, d0, d1, seed0, alternate, k), x0, x1);
        let seat: usize = if swap {
            1
        } else {
            0
        };
        (
            w + if o == Outcome::Win(seat) {
                1nat
            } else {
                0nat
            },
            t + fin.turn as nat,
            y0,
            y1,
        )
    }
}

/// Every game of the first `n` of a series finishes within the engine's
/// integers (see `run_finishes`).
pub open spec fn series_ok<A0: Agent, A1: Agent>(
    db: Seq<CardView>,
    d0: Deck,
    d1: Deck,
    a0: A0,
    a1: A1,
    n: nat,
    seed0: u64,
    alternate: bool,
) -> bool
    decreases n,
{
    if n == 0 {
        true
    } else {
        let k = n - 1;
        let (_, _, x0, x1) = series(db, d0, d1, a0, a1, k as nat, seed0, alternate);
        &&& series_ok(db, d0, d1, a0, a1, k as nat, seed0, alternate)
        &&& run_finishes(series_game(db, d0, d1, seed0, alternate, k), x0, x1)
    }
}

proof fn lemma_series_ok_prefix<A0: Agent, A1: Agent>(
    db: Seq<CardView>,
    d0: Deck,
    d1: Deck,
    a0: A0,
    a1: A1,
    m: nat,
    n: nat,
    seed0: u64,
    alternate: bool,
)
    requires
        m <= n,
        series_ok(db, d0, d1, a0, a1, n, seed0, alternate),
    ensures
        series_ok(db, d0, d1, a0, a1, m, seed0, alternate),
    decreases n,
{
    if m < n {
        lemma_series_ok_prefix(db, d0, d1, a0, a1, m, (n - 1) as nat, seed0, alternate);
    }
}

proof fn lemma_run_turn_bound<A0: Agent, A1: Agent>(g: GameModel, a0: A0, a1: A1, f: nat)
    requires
        game_shaped(g),
        g.turn <= g.max_turns,
    ensures
        run_model(g, a0, a1, f) matches Some(res) ==> res.1.turn <= g.max_turns,
    decreases f,
{
    if f > 0 && !(crate::game::winner(g) is Some) && g.turn < g.max_turns {
        if crate::game::passive_out(g.players[g.active as int]) {
            let h = GameModel { active: (1 - g.active) as usize, ..g };
            lemma_run_turn_bound(h, a0, a1, (f - 1) as nat);
        } else if !crate::game::exhausted(g.players[g.active as int]) {
            crate::game::lemma_turn_keeps(g, a0, a1);
            let (g2, b0, b1) = crate::game::turn_model(g, a0, a1);
            lemma_run_turn_bound(g2, b0, b1, (f - 1) as nat);
        }
    }
}

pub(crate) proof fn lemma_new_game_same(db: Seq<CardView>, a0: Deck, b0: Deck, a1: Deck, b1: Deck, seed: u64)
    requires
        same_deck(a0, b0),
        same_deck(a1, b1),
    ensures
        new_game(db, a0, a1, seed) == new_game(db, b0, b1, seed),
{
    assert(crate::game::opening_player(a0, seed) == crate::game::opening_player(b0, seed));
    let st1 = crate::game::opening_player(a0, seed).1;
    assert(crate::game::opening_player(a1, st1) == crate::game::opening_player(b1, st1));
}

proof fn lemma_finished<A0: Agent, A1: Agent>(
    g: GameModel,
    a0: A0,
    a1: A1,
    o: Outcome,
    r: GameModel,
    b0: A0,
    b1: A1,
    f: nat,
)
    requires
        game_shaped(g),
        g.turn <= g.max_turns,
        run_model(g, a0, a1, f) == Some((o, r, b0, b1)),
    ensures
        finished(g, a0, a1) == (o, r, b0, b1),
        r.turn <= g.max_turns,
{
    let c = choose|f: nat| run_model(g, a0, a1, f) is Some;
    law_run_deterministic(g, a0, a1, f, c);
    lemma_run_turn_bound(g, a0, a1, f);
}

/// Plays game `k` of a series; `None` where it does not finish (see
/// `run_finishes`).
fn play_one<A0: Agent, A1: Agent>(
    db: &CardDb,
    d0: &Deck,
    d1: &Deck,
    a0: &mut A0,
    a1: &mut A1,
    seed0: u64,
    alternate: bool,
    k: u32,
) -> (r: Option<(Outcome, u32)>)
    ensures
        r is Some <==> run_finishes(
            series_game(db@, *d0, *d1, seed0, alternate, k as int),
            *old(a0),
            *old(a1),
        ),
        r matches Some(v) ==> ({
            let res = finished(series_game(db@, *d0, *d1, seed0, alternate, k as int), *old(a0), *old(a1));
            &&& v.0 == res.0
            &&& v.1 == res.1.turn
            &&& *final(a0) == res.2
            &&& *final(a1) == res.3
            &&& v.1 <= 200
        }),
{
    let seed = seed0.wrapping_add(k as u64);
    assert(seed == game_seed(seed0, k));
    let swap = alternate && k % 2 == 1;
    let x = d0.duplicate();
    let y = d1.duplicate();
    let ghost b0 = *a0;
    let ghost b1 = *a1;
    let decks = if swap {
        [y, x]
    } else {
        [x, y]
    };
    let ghost g0 = series_game(db@, *d0, *d1, seed0, alternate, k as int);
    proof {
        reveal(series_game);
    }
    let dbc = db.clone();
    proof {
        if swap {
            lemma_new_game_same(db@, y, *d1, x, *d0, seed);
        } else {
            lemma_new_game_same(db@, x, *d0, y, *d1, seed);
        }
    }
    let mut g = Game::new(dbc, decks, seed);
    assert(g@ == g0);
    let o = match g.try_run(a0, a1) {
        Some(o) => o,
        None => {
            return None;
        },
    };
    proof {
        let f = choose|f: nat| run_model(g0, b0, b1, f) == Some((o, g@, *a0, *a1));
        lemma_finished(g0, b0, b1, o, g@, *a0, *a1, f);
    }
    Some((o, g.turn_count()))
}

/// Plays a series of `games` games between `d0` (seat 0) and `d1` (seat 1),
/// swapping the decks' seats on odd games when `alternate`, with `a0` always in
/// seat 0 and `a1` in seat 1; game `k` is seeded with `seed0 + k` (wrapping).
/// Gives the games won by `d0`'s side and the total number of turns.
pub fn play_series<A0: Agent, A1: Agent>(
    db: &CardDb,
    d0: &Deck,
    d1: &Deck,
    a0: &mut A0,
    a1: &mut A1,
    games: u32,
    seed0: u64,
    alternate: bool,
) -> (r: (u32, u64))
    requires
        series_ok(db@, *d0, *d1, *old(a0), *old(a1), games as nat, seed0, alternate),
    ensures
        r.1 <= 200 * games as int,
        (r.0 as nat, r.1 as nat, *final(a0), *final(a1)) == series(
            db@,
            *d0,
            *d1,
            *old(a0),
            *old(a1),
            games as nat,
            seed0,
            alternate,
        ),
{
    match try_play_series(db, d0, d1, a0, a1, games, seed0, alternate) {
        Some(r) => r,
        None => {
            // `try_play_series` gives up only where `series_ok` fails.
            proof {
                assert(false);
            }
            (0, 0)
        },
    }
}

/// `play_series` where every game finishes: `None` exactly when one of the
/// games does not (see `series_ok`).
pub fn try_play_series<A0: Agent, A1: Agent>(
    db: &CardDb,
    d0: &Deck,
    d1: &Deck,
    a0: &mut A0,
    a1: &mut A1,
    games: u32,
    seed0: u64,
    alternate: bool,
) -> (r: Option<(u32, u64)>)
    ensures
        r is Some <==> series_ok(db@, *d0, *d1, *old(a0), *old(a1), games as nat, seed0, alternate),
        r matches Some(v) ==> {
            &&& v.1 <= 200 * games as int
            &&& (v.0 as nat, v.1 as nat, *final(a0), *final(a1)) == series(
                db@,
                *d0,
                *d1,
                *old(a0),
                *old(a1),
                games as nat,
                seed0,
                alternate,
            )
        },
{
    let mut wins: u32 = 0;
    let mut turns: u64 = 0;
    let mut k: u32 = 0;
    while k < games
        invariant
            series_ok(db@, *d0, *d1, *old(a0), *old(a1), k as nat, seed0, alternate),
            k <= games,
            wins <= k,
            turns <= 200 * k,
            (wins as nat, turns as nat, *a0, *a1) == series(
                db@,
                *d0,
                *d1,
                *old(a0),
                *old(a1),
                k as nat,
                seed0,
                alternate,
            ),
        decreases games - k,
    {
        let swap = alternate && k % 2 == 1;
        let (o, t) = match play_one(db, d0, d1, a0, a1, seed0, alternate, k) {
            Some(v) => v,
            None => {
                proof {
                    if series_ok(db@, *d0, *d1, *old(a0), *old(a1), games as nat, seed0, alternate) {
                        lemma_series_ok_prefix(
                            db@,
                            *d0,
                            *d1,
                            *old(a0),
                            *old(a1),
                            (k + 1) as nat,
                            games as nat,
                            seed0,
                            alternate,
                        );
                    }
                }
                return None;
            },
        };
        let seat: usize = if swap {
            1
        } else {
            0
        };
        if o == Outcome::Win(seat) {
            wins = wins + 1;
        }
        turns = turns + t as u64;
        k = k + 1;
    }
    Some((wins, turns))
}

} // verus!

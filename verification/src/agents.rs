//! Baseline agents. Swap in your own policy by implementing [`Agent`].

use crate::card::{card_is_attack, CardView};
use crate::db::lookup;
use crate::game::{defense_of, Action, Agent, Game, GameModel};
use crate::rng::{rng_below, Rng};
use vstd::prelude::*;

verus! {

/// Passive target: never attacks, never blocks (combat-dummy behaviour).
pub struct CombatDummyAgent;

impl CombatDummyAgent {
    pub fn new() -> (r: Self) {
        CombatDummyAgent
    }
}

impl Default for CombatDummyAgent {
    fn default() -> (r: Self) {
        Self::new()
    }
}

impl Agent for CombatDummyAgent {
    open spec fn spec_action(&self, g: GameModel, me: usize, legal: Seq<Action>) -> (Action, Self) {
        (Action::EndTurn, *self)
    }

    open spec fn spec_blocks(&self, g: GameModel, me: usize, power: i32, dominate: bool) -> (
        Seq<usize>,
        Self,
    ) {
        (Seq::empty(), *self)
    }

    fn name(&self) -> (r: &str)
        ensures
            r@ == "CombatDummy"@,
    {
        "CombatDummy"
    }

    fn choose_action(&mut self, _g: &Game, _me: usize, _legal: &[Action]) -> (r: Action) {
        Action::EndTurn
    }

    fn choose_blocks(&mut self, _g: &Game, _me: usize, _power: i32, _dom: bool) -> (r: Vec<
        usize,
    >) {
        let r: Vec<usize> = Vec::new();
        assert(r@ =~= Seq::<usize>::empty());
        r
    }
}

// ---------------------------------------------------------------------------
// Random
// ---------------------------------------------------------------------------

/// Each hand position `i < k` is picked when a fair bounded draw gives 0; the
/// picks and the generator state afterwards.
pub open spec fn random_picks(st: u64, k: int) -> (Seq<usize>, u64)
    decreases k,
{
    if k <= 0 {
        (Seq::empty(), st)
    } else {
        let (p, s1) = random_picks(st, k - 1);
        let (b, s2) = rng_below(s1, 2);
        (
            if b == 0 {
                p.push((k - 1) as usize)
            } else {
                p
            },
            s2,
        )
    }
}

/// Uniform-random legal action; blocks randomly.
pub struct RandomAgent {
    name: String,
    rng: Rng,
}

impl RandomAgent {
    pub fn new(name: &str, seed: u64) -> (r: Self)
        ensures
            r.state() == seed,
            r.agent_name() == name@,
    {
        RandomAgent { name: String::from_str(name), rng: Rng::new(seed) }
    }

    /// The generator state.
    pub closed spec fn state(&self) -> u64 {
        self.rng.state
    }

    pub closed spec fn agent_name(&self) -> Seq<char> {
        self.name@
    }

    /// The same agent with its generator restarted from `seed`.
    pub fn reseed(&mut self, seed: u64)
        ensures
            *final(self) == old(self).with_state(seed),
    {
        self.rng = Rng::new(seed);
    }

    pub closed spec fn with_state(&self, st: u64) -> Self {
        RandomAgent { rng: Rng { state: st }, ..*self }
    }
}

/// Two random agents whose generators are in the same state make the same
/// choices and leave their generators in the same state again, whatever their
/// names: so agents made with the same seed choose alike over any sequence of
/// calls.
pub proof fn law_random_same_seed(
    a: RandomAgent,
    b: RandomAgent,
    g: GameModel,
    me: usize,
    legal: Seq<Action>,
    power: i32,
    dominate: bool,
)
    requires
        a.state() == b.state(),
    ensures
        a.spec_action(g, me, legal).0 == b.spec_action(g, me, legal).0,
        a.spec_action(g, me, legal).1.state() == b.spec_action(g, me, legal).1.state(),
        a.spec_blocks(g, me, power, dominate).0 == b.spec_blocks(g, me, power, dominate).0,
        a.spec_blocks(g, me, power, dominate).1.state() == b.spec_blocks(
            g,
            me,
            power,
            dominate,
        ).1.state(),
{
}

impl Agent for RandomAgent {
    /// A uniformly drawn legal action.
    open spec fn spec_action(&self, g: GameModel, me: usize, legal: Seq<Action>) -> (Action, Self) {
        let (i, st) = rng_below(self.state(), legal.len() as usize);
        (legal[i as int], self.with_state(st))
    }

    /// Each hand position with a fair coin; under `dominate` only the first pick.
    open spec fn spec_blocks(&self, g: GameModel, me: usize, power: i32, dominate: bool) -> (
        Seq<usize>,
        Self,
    ) {
        let n = g.players[me as int].hand.len() as int;
        if n == 0 {
            (Seq::empty(), *self)
        } else {
            let (picks, st) = random_picks(self.state(), n);
            (
                if dominate && picks.len() > 1 {
                    picks.take(1)
                } else {
                    picks
                },
                self.with_state(st),
            )
        }
    }

    fn name(&self) -> (r: &str)
        ensures
            r@ == self.agent_name(),
    {
        self.name.as_str()
    }

    fn choose_action(&mut self, _g: &Game, _me: usize, legal: &[Action]) -> (r: Action) {
        let i = self.rng.below(legal.len());
        legal[i]
    }

    fn choose_blocks(&mut self, g: &Game, me: usize, _power: i32, dom: bool) -> (r: Vec<usize>) {
        let n = g.me(me).hand.len();
        if n == 0 {
            let r: Vec<usize> = Vec::new();
            assert(r@ =~= Seq::<usize>::empty());
            return r;
        }
        let ghost st0 = self.rng.state;
        let mut picks: Vec<usize> = Vec::new();
        let mut i: usize = 0;
        while i < n
            invariant
                i <= n,
                *self == old(self).with_state(self.rng.state),
                st0 == old(self).rng.state,
                (picks@, self.rng.state) == random_picks(st0, i as int),
            decreases n - i,
        {
            if self.rng.below(2) == 0 {
                picks.push(i);
            }
            i = i + 1;
        }
        if dom {
            picks.truncate(1);
            assert(picks@.len() <= 1);
        }
        proof {
            let (pk, _) = random_picks(st0, n as int);
            if dom && pk.len() > 1 {
                assert(picks@ =~= pk.take(1));
            } else if dom {
                assert(picks@ =~= pk);
            }
        }
        picks
    }
}

// ---------------------------------------------------------------------------
// Greedy
// ---------------------------------------------------------------------------

/// Score of a card for the greedy agent: attacks first, then power, and `go
/// again` above all (it keeps the turn alive).
pub open spec fn greedy_score(c: CardView) -> int {
    (if card_is_attack(c) {
        50int
    } else {
        0
    }) + match c.power {
        Some(p) => p as int,
        None => 0,
    } + (if c.keywords.go_again {
        100int
    } else {
        0
    })
}

/// The hand card a `Play` action names, if the hand has that position and the
/// card is known.
pub open spec fn play_card(g: GameModel, me: usize, a: Action) -> Option<CardView> {
    match a {
        Action::Play(i) => if i < g.players[me as int].hand.len() {
            lookup(g.db, g.players[me as int].hand[i as int]@)
        } else {
            None
        },
        Action::EndTurn => None,
    }
}

/// The best-scoring action among `legal[..n]`; the first one wins a tie.
pub open spec fn greedy_best(g: GameModel, me: usize, legal: Seq<Action>, n: int) -> Option<
    (Action, int),
>
    decreases n,
{
    if n <= 0 {
        None
    } else {
        let prev = greedy_best(g, me, legal, n - 1);
        match play_card(g, me, legal[n - 1]) {
            None => prev,
            Some(c) => match prev {
                None => Some((legal[n - 1], greedy_score(c))),
                Some((_, bs)) => if greedy_score(c) > bs {
                    Some((legal[n - 1], greedy_score(c)))
                } else {
                    prev
                },
            },
        }
    }
}

/// Inserts `e` after every element of `s` whose defense is not above its own
/// (stable ascending order by defense).
pub open spec fn insert_by_def(s: Seq<(usize, i32)>, e: (usize, i32)) -> Seq<(usize, i32)>
    decreases s.len(),
{
    if s.len() == 0 {
        seq![e]
    } else if s.last().1 <= e.1 {
        s.push(e)
    } else {
        insert_by_def(s.drop_last(), e).push(s.last())
    }
}

/// `s` sorted by defense, ascending, equal defenses in their original order.
pub open spec fn sort_by_def(s: Seq<(usize, i32)>) -> Seq<(usize, i32)>
    decreases s.len(),
{
    if s.len() == 0 {
        Seq::empty()
    } else {
        insert_by_def(sort_by_def(s.drop_last()), s.last())
    }
}

/// `(position, defense)` of the first `n` hand cards with positive defense.
pub open spec fn blockers(g: GameModel, me: usize, n: int) -> Seq<(usize, i32)>
    decreases n,
{
    if n <= 0 {
        Seq::empty()
    } else {
        let r = blockers(g, me, n - 1);
        match lookup(g.db, g.players[me as int].hand[n - 1]@) {
            Some(c) => if c.defense > 0 {
                r.push(((n - 1) as usize, c.defense))
            } else {
                r
            },
            None => r,
        }
    }
}

/// Blocks taken from `s[k..]` until the blocked amount reaches `power`; under
/// `dominate` a single block.
pub open spec fn soak(s: Seq<(usize, i32)>, power: int, dominate: bool, k: int, soaked: int) -> Seq<
    usize,
>
    decreases s.len() - k,
{
    if k < 0 || k >= s.len() || soaked >= power {
        Seq::empty()
    } else if dominate {
        seq![s[k].0]
    } else {
        seq![s[k].0] + soak(s, power, dominate, k + 1, soaked + s[k].1)
    }
}

/// The greedy agent plays a best-scoring legal card: the action it picks is
/// one of the legal actions, names a known card, and no legal play scores more.
pub proof fn law_greedy_picks_best(g: GameModel, me: usize, legal: Seq<Action>, n: int)
    requires
        0 <= n <= legal.len(),
    ensures
        match greedy_best(g, me, legal, n) {
            Some((a, s)) => {
                &&& legal.subrange(0, n).contains(a)
                &&& play_card(g, me, a) matches Some(c) && greedy_score(c) == s
                &&& forall|j: int|
                    0 <= j < n ==> (play_card(g, me, #[trigger] legal[j]) matches Some(c)
                        ==> greedy_score(c) <= s)
            },
            None => forall|j: int| 0 <= j < n ==> play_card(g, me, #[trigger] legal[j]) is None,
        },
    decreases n,
{
    if n > 0 {
        law_greedy_picks_best(g, me, legal, n - 1);
        let prev = greedy_best(g, me, legal, n - 1);
        match greedy_best(g, me, legal, n) {
            Some((a, s)) => {
                if a == legal[n - 1] && play_card(g, me, legal[n - 1]) is Some {
                    assert(legal.subrange(0, n)[n - 1] == a);
                } else {
                    let sub = legal.subrange(0, n - 1);
                    let k = choose|k: int| 0 <= k < sub.len() && #[trigger] sub[k] == a;
                    assert(legal.subrange(0, n)[k] == a);
                }
            },
            None => {},
        }
    }
}

/// The greedy agent blocks only a lethal hit, and only enough to survive it:
/// against a hit below its life (or without power) it blocks nothing; against a
/// lethal hit without `dominate` its blocks leave it above 0 life unless every
/// card with positive defense is used, and without the last block it would not
/// survive.
pub proof fn law_greedy_blocks_to_survive(
    ga: GreedyAttackAgent,
    g: GameModel,
    me: usize,
    power: i32,
    dominate: bool,
)
    requires
        me < 2,
        g.players.len() == 2,
        g.players[me as int].hand.len() <= usize::MAX,
    ensures
        ({
            let h = g.players[me as int].hand;
            let life = g.players[me as int].life;
            let r = ga.spec_blocks(g, me, power, dominate).0;
            &&& (power < life || power <= 0) ==> r.len() == 0
            &&& (power >= life && power > 0 && !dominate) ==> {
                &&& life - (power - defense_total(g.db, h, r)) > 0 || forall|j: int|
                    0 <= j < h.len() && defense_of(g.db, #[trigger] h[j]) > 0 ==> r.contains(
                        j as usize,
                    )
                &&& r.len() > 0 ==> life - (power - defense_total(g.db, h, r.drop_last())) <= 0
            }
        }),
{
    let life = g.players[me as int].life;
    if power >= life && power > 0 {
        law_soak_enough(g, me, power - life + 1);
    }
}

/// Against a `dominate` attack the greedy agent blocks with at most one card.
pub proof fn law_greedy_dominate_block(s: Seq<(usize, i32)>, power: int, k: int, soaked: int)
    ensures
        soak(s, power, true, k, soaked).len() <= 1,
{
}

/// The blocks that soak at least `need` damage: the defender's cards with
/// positive defense, lowest defense first (hand order among equals), taken until
/// their defense reaches `need`; under `dominate` a single card.
pub open spec fn soak_plan(g: GameModel, me: usize, need: int, dominate: bool) -> Seq<usize> {
    soak(sort_by_def(blockers(g, me, g.players[me as int].hand.len() as int)), need, dominate, 0, 0)
}

/// `a` comes before `b` by defense, then by hand position.
pub open spec fn lower_block(a: (usize, i32), b: (usize, i32)) -> bool {
    a.1 < b.1 || (a.1 == b.1 && a.0 < b.0)
}

pub open spec fn lower_first(s: Seq<(usize, i32)>) -> bool {
    forall|i: int, j: int| 0 <= i < j < s.len() ==> lower_block(#[trigger] s[i], #[trigger] s[j])
}

/// Hand position `x.0` holds a known card of positive defense `x.1`.
pub open spec fn blocker_entry(db: Seq<CardView>, h: Seq<String>, x: (usize, i32)) -> bool {
    match lookup(db, h[x.0 as int]@) {
        Some(c) => c.defense > 0 && x.1 == c.defense,
        None => false,
    }
}

proof fn lemma_insert_lower_first(t: Seq<(usize, i32)>, e: (usize, i32))
    requires
        lower_first(t),
        forall|i: int| 0 <= i < t.len() ==> (#[trigger] t[i]).0 < e.0,
    ensures
        insert_by_def(t, e).len() == t.len() + 1,
        lower_first(insert_by_def(t, e)),
        forall|x: (usize, i32)| #[trigger]
            insert_by_def(t, e).contains(x) <==> (t.contains(x) || x == e),
    decreases t.len(),
{
    let r = insert_by_def(t, e);
    if t.len() == 0 {
        assert(r =~= seq![e]);
        assert forall|x: (usize, i32)| #[trigger] r.contains(x) <==> (t.contains(x) || x == e) by {
            if r.contains(x) {
                let k = choose|k: int| 0 <= k < r.len() && r[k] == x;
            }
            if x == e {
                assert(r[0] == e);
            }
        }
    } else if t.last().1 <= e.1 {
        assert(r == t.push(e));
        assert forall|i: int, j: int| 0 <= i < j < r.len() implies lower_block(
            #[trigger] r[i],
            #[trigger] r[j],
        ) by {
            if j == t.len() {
                if i < t.len() - 1 {
                    assert(lower_block(t[i], t[t.len() - 1]));
                }
            } else {
                assert(lower_block(t[i], t[j]));
            }
        }
        assert forall|x: (usize, i32)| #[trigger] r.contains(x) <==> (t.contains(x) || x == e) by {
            if r.contains(x) {
                let k = choose|k: int| 0 <= k < r.len() && r[k] == x;
                if k < t.len() {
                    assert(t[k] == x);
                }
            }
            if t.contains(x) {
                let k = choose|k: int| 0 <= k < t.len() && t[k] == x;
                assert(r[k] == x);
            }
            if x == e {
                assert(r[t.len() as int] == e);
            }
        }
    } else {
        let d = t.drop_last();
        let l = t.last();
        assert forall|i: int, j: int| 0 <= i < j < d.len() implies lower_block(
            #[trigger] d[i],
            #[trigger] d[j],
        ) by {
            assert(lower_block(t[i], t[j]));
        }
        assert forall|i: int| 0 <= i < d.len() implies (#[trigger] d[i]).0 < e.0 by {
            assert(t[i] == d[i]);
        }
        lemma_insert_lower_first(d, e);
        let q = insert_by_def(d, e);
        assert(r == q.push(l));
        assert forall|i: int| 0 <= i < q.len() implies lower_block(#[trigger] q[i], l) by {
            assert(q.contains(q[i]));
            if d.contains(q[i]) {
                let k = choose|k: int| 0 <= k < d.len() && d[k] == q[i];
                assert(lower_block(t[k], t[t.len() - 1]));
            }
        }
        assert forall|i: int, j: int| 0 <= i < j < r.len() implies lower_block(
            #[trigger] r[i],
            #[trigger] r[j],
        ) by {
            if j == q.len() {
                assert(lower_block(q[i], l));
            } else {
                assert(lower_block(q[i], q[j]));
            }
        }
        assert forall|x: (usize, i32)| #[trigger] r.contains(x) <==> (t.contains(x) || x == e) by {
            if r.contains(x) {
                let k = choose|k: int| 0 <= k < r.len() && r[k] == x;
                if k < q.len() {
                    assert(q[k] == x);
                    assert(q.contains(x));
                    if d.contains(x) {
                        let m = choose|m: int| 0 <= m < d.len() && d[m] == x;
                        assert(t[m] == x);
                    }
                } else {
                    assert(t[t.len() - 1] == x);
                }
            }
            if t.contains(x) {
                let k = choose|k: int| 0 <= k < t.len() && t[k] == x;
                if k < t.len() - 1 {
                    assert(d[k] == x);
                    assert(q.contains(x));
                    let m = choose|m: int| 0 <= m < q.len() && q[m] == x;
                    assert(r[m] == x);
                } else {
                    assert(r[q.len() as int] == x);
                }
            }
            if x == e {
                assert(q.contains(e));
                let m = choose|m: int| 0 <= m < q.len() && q[m] == e;
                assert(r[m] == e);
            }
        }
    }
}

proof fn lemma_sort_lower_first(s: Seq<(usize, i32)>)
    requires
        forall|i: int, j: int| 0 <= i < j < s.len() ==> (#[trigger] s[i]).0 < (#[trigger] s[j]).0,
    ensures
        lower_first(sort_by_def(s)),
        forall|x: (usize, i32)| #[trigger] sort_by_def(s).contains(x) <==> s.contains(x),
    decreases s.len(),
{
    if s.len() > 0 {
        let d = s.drop_last();
        assert forall|i: int, j: int| 0 <= i < j < d.len() implies (#[trigger] d[i]).0 < (
        #[trigger] d[j]).0 by {
            assert(s[i].0 < s[j].0);
        }
        lemma_sort_lower_first(d);
        let q = sort_by_def(d);
        assert forall|i: int| 0 <= i < q.len() implies (#[trigger] q[i]).0 < s.last().0 by {
            assert(q.contains(q[i]));
            let k = choose|k: int| 0 <= k < d.len() && d[k] == q[i];
            assert(s[k].0 < s[s.len() - 1].0);
        }
        lemma_insert_lower_first(q, s.last());
        assert forall|x: (usize, i32)| #[trigger] sort_by_def(s).contains(x) <==> s.contains(x) by {
            if s.contains(x) {
                let k = choose|k: int| 0 <= k < s.len() && s[k] == x;
                if k < s.len() - 1 {
                    assert(d[k] == x);
                }
            }
            if d.contains(x) {
                let k = choose|k: int| 0 <= k < d.len() && d[k] == x;
                assert(s[k] == x);
            }
            if x == s.last() {
                assert(s[s.len() - 1] == x);
            }
        }
    } else {
        assert forall|x: (usize, i32)| #[trigger] sort_by_def(s).contains(x) <==> s.contains(x) by {
            assert(sort_by_def(s) =~= Seq::<(usize, i32)>::empty());
        }
    }
}

proof fn lemma_blockers(g: GameModel, me: usize, n: int)
    requires
        0 <= n <= g.players[me as int].hand.len(),
        n <= usize::MAX,
    ensures
        ({
            let b = blockers(g, me, n);
            let h = g.players[me as int].hand;
            &&& forall|i: int, j: int| 0 <= i < j < b.len() ==> (#[trigger] b[i]).0 < (#[trigger] b[j]).0
            &&& forall|i: int| 0 <= i < b.len() ==> (#[trigger] b[i]).0 < n
            &&& forall|x: (usize, i32)| #[trigger]
                b.contains(x) <==> (x.0 < n && blocker_entry(g.db, h, x))
        }),
    decreases n,
{
    let h = g.players[me as int].hand;
    if n > 0 {
        lemma_blockers(g, me, n - 1);
        let r = blockers(g, me, n - 1);
        let b = blockers(g, me, n);
        match lookup(g.db, h[n - 1]@) {
            Some(c) => {
                if c.defense > 0 {
                    let e = ((n - 1) as usize, c.defense);
                    assert(b == r.push(e));
                    assert forall|x: (usize, i32)| #[trigger]
                        b.contains(x) <==> (x.0 < n && blocker_entry(g.db, h, x)) by {
                        if b.contains(x) {
                            let k = choose|k: int| 0 <= k < b.len() && b[k] == x;
                            if k < r.len() {
                                assert(r[k] == x);
                            }
                        }
                        if x.0 < n - 1 && r.contains(x) {
                            let k = choose|k: int| 0 <= k < r.len() && r[k] == x;
                            assert(b[k] == x);
                        }
                        if x.0 == n - 1 && blocker_entry(g.db, h, x) {
                            assert(x == e);
                            assert(b[r.len() as int] == x);
                        }
                    }
                } else {
                    assert(b == r);
                }
            },
            None => {
                assert(b == r);
            },
        }
    } else {
        assert forall|x: (usize, i32)| #[trigger] blockers(g, me, n).contains(x) implies false by {
            assert(blockers(g, me, n) =~= Seq::<(usize, i32)>::empty());
        }
    }
}

/// The blocks of `soak` from `k` name the positions of `s[k..]`, in order.
pub open spec fn soak_names_prefix(s: Seq<(usize, i32)>, r: Seq<usize>, k: int) -> bool {
    &&& k + r.len() <= s.len() || r.len() == 0
    &&& forall|t: int| 0 <= t < r.len() ==> #[trigger] r[t] == s[k + t].0
}

proof fn lemma_soak_prefix(s: Seq<(usize, i32)>, power: int, dominate: bool, k: int, soaked: int)
    requires
        0 <= k,
    ensures
        soak_names_prefix(s, soak(s, power, dominate, k, soaked), k),
    decreases s.len() - k,
{
    let r = soak(s, power, dominate, k, soaked);
    if k >= s.len() || soaked >= power {
        assert(r.len() == 0);
    } else if dominate {
        assert(r == seq![s[k].0]);
        assert(r[0] == s[k + 0].0);
    } else {
        lemma_soak_prefix(s, power, dominate, k + 1, soaked + s[k].1);
        let rest = soak(s, power, dominate, k + 1, soaked + s[k].1);
        assert(r == seq![s[k].0] + rest);
        assert forall|t: int| 0 <= t < r.len() implies #[trigger] r[t] == s[k + t].0 by {
            if t > 0 {
                assert(r[t] == rest[t - 1]);
                assert(k + 1 + (t - 1) == k + t);
            } else {
                assert(r[0] == s[k].0);
            }
        }
    }
}

/// The greedy blocks come lowest defense first: every chosen hand position holds
/// a card with positive defense, and every card with positive defense left out
/// has a higher defense than each chosen one, or the same defense and a later
/// hand position.
pub proof fn law_soak_lowest_first(g: GameModel, me: usize, need: int, dominate: bool)
    requires
        me < 2,
        g.players.len() == 2,
        g.players[me as int].hand.len() <= usize::MAX,
    ensures
        ({
            let h = g.players[me as int].hand;
            let r = soak_plan(g, me, need, dominate);
            &&& forall|t: int|
                0 <= t < r.len() ==> #[trigger] r[t] < h.len() && defense_of(g.db, h[r[t] as int])
                    > 0
            &&& forall|t: int, j: int|
                0 <= t < r.len() && 0 <= j < h.len() && defense_of(g.db, h[j]) > 0
                    && !r.contains(j as usize) ==> defense_of(g.db, h[#[trigger] r[t] as int])
                    < defense_of(g.db, #[trigger] h[j]) || (defense_of(g.db, h[r[t] as int])
                    == defense_of(g.db, h[j]) && r[t] < j)
        }),
{
    let h = g.players[me as int].hand;
    let n = h.len() as int;
    let b = blockers(g, me, n);
    lemma_blockers(g, me, n);
    lemma_sort_lower_first(b);
    let s = sort_by_def(b);
    lemma_soak_prefix(s, need, dominate, 0, 0);
    let r = soak_plan(g, me, need, dominate);
    assert(r == soak(s, need, dominate, 0, 0));
    assert forall|t: int| 0 <= t < r.len() implies #[trigger] r[t] < h.len() && defense_of(
        g.db,
        h[r[t] as int],
    ) > 0 && defense_of(g.db, h[r[t] as int]) == s[t].1 by {
        assert(r[t] == s[0 + t].0);
        assert(t < s.len());
        assert(s.contains(s[t]));
        assert(b.contains(s[t]));
    }
    assert forall|t: int, j: int|
        0 <= t < r.len() && 0 <= j < h.len() && defense_of(g.db, h[j]) > 0 && !r.contains(
            j as usize,
        ) implies defense_of(g.db, h[#[trigger] r[t] as int]) < defense_of(g.db, #[trigger] h[j])
        || (defense_of(g.db, h[r[t] as int]) == defense_of(g.db, h[j]) && r[t] < j) by {
        let c = lookup(g.db, h[j]@)->0;
        let x = (j as usize, c.defense);
        assert(b.contains(x));
        assert(s.contains(x));
        let m = choose|m: int| 0 <= m < s.len() && s[m] == x;
        if m < r.len() {
            assert(r[m] == s[0 + m].0);
            assert(r[m] == j as usize);
            assert(r.contains(j as usize));
        }
        assert(r[t] == s[0 + t].0);
        assert(lower_block(s[t], s[m]));
        assert(defense_of(g.db, h[r[t] as int]) == s[t].1);
    }
}

/// Total defense of the hand cards at positions `r`.
pub open spec fn defense_total(db: Seq<CardView>, h: Seq<String>, r: Seq<usize>) -> int
    decreases r.len(),
{
    if r.len() == 0 {
        0
    } else {
        defense_total(db, h, r.drop_last()) + defense_of(db, h[r.last() as int])
    }
}

/// Total defense of the entries `s[k..m]`.
pub open spec fn pair_sum(s: Seq<(usize, i32)>, k: int, m: int) -> int
    decreases m - k,
{
    if m <= k {
        0
    } else {
        pair_sum(s, k, m - 1) + s[m - 1].1
    }
}

proof fn lemma_pair_sum_front(s: Seq<(usize, i32)>, k: int, m: int)
    requires
        k < m,
    ensures
        pair_sum(s, k, m) == s[k].1 + pair_sum(s, k + 1, m),
    decreases m - k,
{
    if m - 1 > k {
        lemma_pair_sum_front(s, k, m - 1);
        assert(pair_sum(s, k, m) == pair_sum(s, k, m - 1) + s[m - 1].1);
        assert(pair_sum(s, k + 1, m) == pair_sum(s, k + 1, m - 1) + s[m - 1].1);
    } else {
        assert(pair_sum(s, k, m) == pair_sum(s, k, m - 1) + s[m - 1].1);
        assert(pair_sum(s, k, k) == 0);
        assert(pair_sum(s, k + 1, m) == 0);
    }
}

proof fn lemma_soak_amount(s: Seq<(usize, i32)>, need: int, k: int, soaked: int)
    requires
        0 <= k <= s.len(),
    ensures
        ({
            let r = soak(s, need, false, k, soaked);
            &&& k + r.len() <= s.len()
            &&& soaked + pair_sum(s, k, k + r.len()) >= need || k + r.len() == s.len()
            &&& r.len() > 0 ==> soaked + pair_sum(s, k, k + r.len() - 1) < need
        }),
    decreases s.len() - k,
{
    let r = soak(s, need, false, k, soaked);
    if k >= s.len() || soaked >= need {
        assert(r.len() == 0);
    } else {
        lemma_soak_amount(s, need, k + 1, soaked + s[k].1);
        let rest = soak(s, need, false, k + 1, soaked + s[k].1);
        assert(r == seq![s[k].0] + rest);
        lemma_pair_sum_front(s, k, k + r.len());
        if rest.len() > 0 {
            lemma_pair_sum_front(s, k, k + rest.len());
        }
    }
}

proof fn lemma_total_prefix(db: Seq<CardView>, h: Seq<String>, r: Seq<usize>, s: Seq<(usize, i32)>, m: int)
    requires
        0 <= m <= r.len(),
        r.len() <= s.len(),
        forall|t: int| 0 <= t < r.len() ==> #[trigger] r[t] == s[t].0,
        forall|t: int| 0 <= t < r.len() ==> defense_of(db, h[r[t] as int]) == (#[trigger] s[t]).1,
    ensures
        defense_total(db, h, r.take(m)) == pair_sum(s, 0, m),
    decreases m,
{
    if m > 0 {
        lemma_total_prefix(db, h, r, s, m - 1);
        assert(r.take(m).drop_last() =~= r.take(m - 1));
        assert(r.take(m).last() == r[m - 1]);
    }
}

proof fn lemma_plan_facts(g: GameModel, me: usize, need: int, dominate: bool)
    requires
        me < 2,
        g.players.len() == 2,
        g.players[me as int].hand.len() <= usize::MAX,
    ensures
        ({
            let h = g.players[me as int].hand;
            let s = sort_by_def(blockers(g, me, h.len() as int));
            let r = soak_plan(g, me, need, dominate);
            &&& r == soak(s, need, dominate, 0, 0)
            &&& r.len() <= s.len()
            &&& forall|t: int| 0 <= t < r.len() ==> #[trigger] r[t] == s[t].0
            &&& forall|t: int|
                0 <= t < s.len() ==> (#[trigger] s[t]).0 < h.len() && defense_of(g.db, h[s[t].0 as int])
                    == s[t].1 && s[t].1 > 0
            &&& forall|j: int|
                0 <= j < h.len() && defense_of(g.db, #[trigger] h[j]) > 0 ==> exists|m: int|
                    0 <= m < s.len() && (#[trigger] s[m]).0 == j
        }),
{
    let h = g.players[me as int].hand;
    let n = h.len() as int;
    let b = blockers(g, me, n);
    lemma_blockers(g, me, n);
    lemma_sort_lower_first(b);
    let s = sort_by_def(b);
    let r = soak_plan(g, me, need, dominate);
    lemma_soak_prefix(s, need, dominate, 0, 0);
    assert forall|t: int| 0 <= t < r.len() implies #[trigger] r[t] == s[t].0 by {
        assert(r[t] == s[0 + t].0);
    }
    assert forall|t: int| 0 <= t < s.len() implies (#[trigger] s[t]).0 < h.len() && defense_of(
        g.db,
        h[s[t].0 as int],
    ) == s[t].1 && s[t].1 > 0 by {
        assert(s.contains(s[t]));
        assert(b.contains(s[t]));
    }
    assert forall|j: int| 0 <= j < h.len() && defense_of(g.db, #[trigger] h[j]) > 0 implies exists|
        m: int,
    | 0 <= m < s.len() && (#[trigger] s[m]).0 == j by {
        let c = lookup(g.db, h[j]@)->0;
        let x = (j as usize, c.defense);
        assert(b.contains(x));
        assert(s.contains(x));
        let m = choose|m: int| 0 <= m < s.len() && s[m] == x;
        assert(s[m].0 == j);
    }
}

/// The greedy blocks soak just enough: without `dominate` they reach `need`
/// unless every card with positive defense is already used, and without the
/// last one they fall short of `need`.
pub proof fn law_soak_enough(g: GameModel, me: usize, need: int)
    requires
        me < 2,
        g.players.len() == 2,
        g.players[me as int].hand.len() <= usize::MAX,
    ensures
        ({
            let h = g.players[me as int].hand;
            let r = soak_plan(g, me, need, false);
            &&& defense_total(g.db, h, r) >= need || forall|j: int|
                0 <= j < h.len() && defense_of(g.db, #[trigger] h[j]) > 0 ==> r.contains(j as usize)
            &&& r.len() > 0 ==> defense_total(g.db, h, r.drop_last()) < need
        }),
{
    let h = g.players[me as int].hand;
    let s = sort_by_def(blockers(g, me, h.len() as int));
    let r = soak_plan(g, me, need, false);
    lemma_plan_facts(g, me, need, false);
    lemma_soak_amount(s, need, 0, 0);
    assert forall|t: int| 0 <= t < r.len() implies defense_of(g.db, h[r[t] as int]) == (
    #[trigger] s[t]).1 by {
        assert(r[t] == s[t].0);
    }
    lemma_total_prefix(g.db, h, r, s, r.len() as int);
    assert(r.take(r.len() as int) =~= r);
    if r.len() > 0 {
        lemma_total_prefix(g.db, h, r, s, r.len() - 1);
        assert(r.take(r.len() - 1) =~= r.drop_last());
    }
    if r.len() == s.len() {
        assert forall|j: int| 0 <= j < h.len() && defense_of(g.db, #[trigger] h[j]) > 0 implies r.contains(
            j as usize,
        ) by {
            let m = choose|m: int| 0 <= m < s.len() && (#[trigger] s[m]).0 == j;
            assert(r[m] == s[m].0);
        }
    }
}

/// Under `dominate` the greedy blocks are at most one card, and one exactly when
/// `need` is positive and some hand card has positive defense.
pub proof fn law_soak_dominate(g: GameModel, me: usize, need: int)
    requires
        me < 2,
        g.players.len() == 2,
        g.players[me as int].hand.len() <= usize::MAX,
    ensures
        ({
            let h = g.players[me as int].hand;
            let d = soak_plan(g, me, need, true);
            &&& d.len() <= 1
            &&& d.len() == 1 <==> (need > 0 && exists|j: int|
                0 <= j < h.len() && defense_of(g.db, #[trigger] h[j]) > 0)
        }),
{
    let h = g.players[me as int].hand;
    let s = sort_by_def(blockers(g, me, h.len() as int));
    let d = soak_plan(g, me, need, true);
    lemma_plan_facts(g, me, need, true);
    if s.len() > 0 && need > 0 {
        assert(d == seq![s[0].0]);
        assert(defense_of(g.db, h[s[0].0 as int]) > 0);
    } else {
        assert(d.len() == 0);
        if need > 0 {
            assert forall|j: int| 0 <= j < h.len() implies defense_of(g.db, #[trigger] h[j]) <= 0 by {
                if defense_of(g.db, h[j]) > 0 {
                    let m = choose|m: int| 0 <= m < s.len() && (#[trigger] s[m]).0 == j;
                }
            }
        }
    }
}

/// Greedy aggression: play the highest-power affordable attack, preferring `go
/// again`; block only what is needed to survive a lethal hit, using the
/// lowest-defense cards.
pub struct GreedyAttackAgent {
    name: String,
}

impl GreedyAttackAgent {
    pub fn new(name: &str) -> (r: Self)
        ensures
            r.agent_name() == name@,
    {
        GreedyAttackAgent { name: String::from_str(name) }
    }

    pub closed spec fn agent_name(&self) -> Seq<char> {
        self.name@
    }
}

impl Agent for GreedyAttackAgent {
    open spec fn spec_action(&self, g: GameModel, me: usize, legal: Seq<Action>) -> (Action, Self) {
        (
            match greedy_best(g, me, legal, legal.len() as int) {
                Some((a, _)) => a,
                None => Action::EndTurn,
            },
            *self,
        )
    }

    open spec fn spec_blocks(&self, g: GameModel, me: usize, power: i32, dominate: bool) -> (
        Seq<usize>,
        Self,
    ) {
        if power < g.players[me as int].life || power <= 0 {
            (Seq::empty(), *self)
        } else {
            (soak_plan(g, me, power - g.players[me as int].life + 1, dominate), *self)
        }
    }

    fn name(&self) -> (r: &str)
        ensures
            r@ == self.agent_name(),
    {
        self.name.as_str()
    }

    fn choose_action(&mut self, g: &Game, me: usize, legal: &[Action]) -> (r: Action) {
        let ghost gm = g@;
        let mut best: Option<(Action, i64)> = None;
        let mut k: usize = 0;
        while k < legal.len()
            invariant
                gm == g@,
                me < 2,
                k <= legal@.len(),
                match greedy_best(gm, me, legal@, k as int) {
                    None => best is None,
                    Some((a, s)) => best == Some((a, s as i64)) && -0x8000_0000 <= s < 0x8000_0000
                        + 150,
                },
            decreases legal@.len() - k,
        {
            let a = legal[k];
            k = k + 1;
            if let Action::Play(i) = a {
                let hand = &g.me(me).hand;
                if i < hand.len() {
                    if let Some(card) = g.card(hand[i].as_str()) {
                        let power: i64 = match card.power {
                            Some(p) => p as i64,
                            None => 0,
                        };
                        let go: i64 = if card.keywords.go_again {
                            100
                        } else {
                            0
                        };
                        let attack_bonus: i64 = if card.is_attack() {
                            50
                        } else {
                            0
                        };
                        let score = attack_bonus + power + go;
                        let better = match best {
                            None => true,
                            Some((_, s)) => score > s,
                        };
                        if better {
                            best = Some((a, score));
                        }
                    }
                }
            }
        }
        match best {
            Some((a, _)) => a,
            None => Action::EndTurn,
        }
    }

    fn choose_blocks(&mut self, g: &Game, me: usize, power: i32, dom: bool) -> (r: Vec<usize>) {
        let life = g.me(me).life;
        if power < life || power <= 0 {
            let r: Vec<usize> = Vec::new();
            assert(r@ =~= Seq::<usize>::empty());
            return r;
        }
        soak_blocks(g, me, power as i64 - life as i64 + 1, dom)
    }
}

/// The blocks that soak at least `need` damage (see `soak_plan`).
pub fn soak_blocks(g: &Game, me: usize, need: i64, dom: bool) -> (r: Vec<usize>)
    requires
        me < 2,
    ensures
        r@ == soak_plan(g@, me, need as int, dom),
{
    let ghost gm = g@;
    let hand = &g.me(me).hand;
    let n = hand.len();
    // blockers with positive defense, in hand order
    let mut by_def: Vec<(usize, i32)> = Vec::new();
    let mut i: usize = 0;
    while i < n
        invariant
            gm == g@,
            me < 2,
            hand@ == gm.players[me as int].hand,
            n == hand@.len(),
            i <= n,
            by_def@ == blockers(gm, me, i as int),
            by_def@.len() <= i,
            forall|t: int|
                0 <= t < by_def@.len() ==> 0 < (#[trigger] by_def@[t]).1,
        decreases n - i,
    {
        match g.card(hand[i].as_str()) {
            Some(c) => {
                if c.defense > 0 {
                    by_def.push((i, c.defense));
                }
            },
            None => {},
        }
        i = i + 1;
    }
    // stable sort by defense, ascending
    let mut sorted: Vec<(usize, i32)> = Vec::new();
    let mut k: usize = 0;
    assert(by_def@.take(0) =~= sorted@);
    while k < by_def.len()
        invariant
            k <= by_def@.len(),
            sorted@ == sort_by_def(by_def@.take(k as int)),
            sorted@.to_multiset() == by_def@.take(k as int).to_multiset(),
            forall|t: int|
                0 <= t < by_def@.len() ==> 0 < (#[trigger] by_def@[t]).1,
        decreases by_def@.len() - k,
    {
        let e = by_def[k];
        let ghost before = sorted@;
        let mut pos = sorted.len();
        assert(before.take(pos as int) =~= before);
        assert(before.skip(pos as int) =~= Seq::<(usize, i32)>::empty());
        assert(insert_by_def(before, e) + Seq::<(usize, i32)>::empty() =~= insert_by_def(before, e));
        while pos > 0 && sorted[pos - 1].1 > e.1
            invariant
                sorted@ == before,
                pos <= sorted@.len(),
                insert_by_def(before, e) == insert_by_def(before.take(pos as int), e) + before.skip(
                    pos as int,
                ),
            decreases pos,
        {
            proof {
                lemma_insert_split(before.take(pos as int), e);
                assert(before.take(pos as int).drop_last() =~= before.take(pos - 1));
                assert(before.take(pos as int).last() == before[pos - 1]);
                assert(before.skip(pos - 1) =~= seq![before[pos - 1]] + before.skip(pos as int));
                assert(insert_by_def(before.take(pos - 1), e).push(before[pos - 1]) + before.skip(
                    pos as int,
                ) =~= insert_by_def(before.take(pos - 1), e) + before.skip(pos - 1));
            }
            pos = pos - 1;
        }
        proof {
            if pos > 0 {
                assert(before.take(pos as int).last() == before[pos - 1]);
            }
            assert(insert_by_def(before.take(pos as int), e) =~= before.take(pos as int).push(e));
            assert(before.insert(pos as int, e) =~= before.take(pos as int).push(e) + before.skip(
                pos as int,
            ));
            assert(by_def@.take(k + 1) =~= by_def@.take(k as int).push(e));
            assert(by_def@.take(k + 1).drop_last() =~= by_def@.take(k as int));
        }
        sorted.insert(pos, e);
        proof {
            broadcast use vstd::seq_lib::group_to_multiset_ensures;

            crate::text::lemma_insert_multiset(before, pos as int, e);
        }
        k = k + 1;
    }
    assert(by_def@.take(k as int) =~= by_def@);
    proof {
        broadcast use vstd::seq_lib::group_to_multiset_ensures;

        assert(sorted@.len() == sorted@.to_multiset().len());
        assert(by_def@.len() == by_def@.to_multiset().len());
        assert forall|t: int| 0 <= t < sorted@.len() implies 0 < (#[trigger] sorted@[t]).1 by {
            assert(sorted@.to_multiset().count(sorted@[t]) > 0);
            assert(by_def@.contains(sorted@[t]));
        }
    }
    // soak the hit with the smallest blockers first
    let mut chosen: Vec<usize> = Vec::new();
    let mut soaked: i128 = 0;
    let mut j: usize = 0;
    let mut more = true;
    let ghost ss = sorted@;
    while more && j < sorted.len()
        invariant
            sorted@ == ss,
            forall|t: int| 0 <= t < ss.len() ==> 0 < (#[trigger] ss[t]).1,
            ss.len() <= usize::MAX,
            j <= ss.len(),
            0 <= soaked <= j * 0x8000_0000,
            soak(ss, need as int, dom, 0, 0) == if more {
                chosen@ + soak(ss, need as int, dom, j as int, soaked as int)
            } else {
                chosen@
            },
        decreases ss.len() - j, (if more { 1int } else { 0int }),
    {
        if soaked >= need as i128 {
            more = false;
        } else {
            let (idx, d) = sorted[j];
            chosen.push(idx);
            soaked = soaked + d as i128;
            j = j + 1;
            if dom {
                more = false;
            }
        }
    }
    assert(soak(ss, need as int, dom, j as int, soaked as int) =~= Seq::<usize>::empty() || !more);
    assert(chosen@ + Seq::<usize>::empty() =~= chosen@);
    chosen
}

proof fn lemma_insert_split(s: Seq<(usize, i32)>, e: (usize, i32))
    requires
        s.len() > 0,
        s.last().1 > e.1,
    ensures
        insert_by_def(s, e) == insert_by_def(s.drop_last(), e).push(s.last()),
{
}

} // verus!

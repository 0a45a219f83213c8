//! The in-memory card database, indexed by card identifier, and the embedded
//! sample of Aurora (Runeblade / Lightning) card records it is loaded from.

use crate::card::{card_from_record, Card, CardView};
use crate::text::{
    blank, chars_of, lemma_split_nonempty, lines_seq, range_is_blank, ranges_match_split,
    sort_texts, split_ranges, split_seq, strip_cr, string_of_range, text_order, views_of,
};
use crate::types::CardType;
use vstd::prelude::*;

verus! {

/// The embedded sample of Aurora card records (the hero, an instant and the
/// three pitch variants of one attack), one per line, tab-separated:
/// id, name, pitch, cost, power, defense, types, subtypes, classes, talents, text.
pub const AURORA_TSV: &'static str = "aurora-legacy-of-tempest\tAurora, Legacy of Tempest\t\t\t\t\tHero\t\tRuneblade\tLightning\t\nstormshard-red\tStormshard\t1\t0\t\t\tInstant\t\tRuneblade\tLightning\t\nadrenaline-rush-red\tAdrenaline Rush\t1\t2\t4\t2\tAction\tAttack\tGeneric\t\t\nadrenaline-rush-yellow\tAdrenaline Rush\t2\t2\t3\t2\tAction\tAttack\tGeneric\t\t\nadrenaline-rush-blue\tAdrenaline Rush\t3\t2\t2\t2\tAction\tAttack\tGeneric\t\t\n";

/// The first index at or after `i` whose card has identifier `id`.
pub open spec fn find_from(db: Seq<CardView>, id: Seq<char>, i: int) -> Option<int>
    decreases db.len() - i,
{
    if i < 0 || i >= db.len() {
        None
    } else if db[i].id == id {
        Some(i)
    } else {
        find_from(db, id, i + 1)
    }
}

/// The card with identifier `id`, if the database has one.
pub open spec fn lookup(db: Seq<CardView>, id: Seq<char>) -> Option<CardView> {
    match find_from(db, id, 0) {
        Some(i) => Some(db[i]),
        None => None,
    }
}

/// Adds a card; a card with the same identifier is replaced in place.
pub open spec fn db_insert(db: Seq<CardView>, c: CardView) -> Seq<CardView> {
    match find_from(db, c.id, 0) {
        Some(i) => db.update(i, c),
        None => db.push(c),
    }
}

/// The database built from the first `n` lines: blank lines and lines that are
/// no card record are skipped.
pub open spec fn load_lines(lines: Seq<Seq<char>>, n: int) -> Seq<CardView>
    decreases n,
{
    if n <= 0 {
        Seq::empty()
    } else {
        let db = load_lines(lines, n - 1);
        let l = lines[n - 1];
        if blank(l) {
            db
        } else {
            match card_from_record(l) {
                Some(c) => db_insert(db, c),
                None => db,
            }
        }
    }
}

/// The database that a TSV text describes.
pub open spec fn db_from_text(t: Seq<char>) -> Seq<CardView> {
    load_lines(lines_seq(t), lines_seq(t).len() as int)
}

/// No two cards share an identifier.
pub open spec fn ids_unique(db: Seq<CardView>) -> bool {
    forall|i: int, j: int| 0 <= i < j < db.len() ==> db[i].id != db[j].id
}

/// The identifiers, in database order, of the cards that have type `t`.
pub open spec fn ids_with_type(db: Seq<CardView>, t: CardType, n: int) -> Seq<Seq<char>>
    decreases n,
{
    if n <= 0 {
        Seq::empty()
    } else {
        let r = ids_with_type(db, t, n - 1);
        if db[n - 1].types.contains(t) {
            r.push(db[n - 1].id)
        } else {
            r
        }
    }
}

pub proof fn lemma_find_from(db: Seq<CardView>, id: Seq<char>, i: int)
    requires
        0 <= i <= db.len(),
    ensures
        match find_from(db, id, i) {
            Some(k) => i <= k < db.len() && db[k].id == id && forall|j: int|
                i <= j < k ==> db[j].id != id,
            None => forall|j: int| i <= j < db.len() ==> db[j].id != id,
        },
    decreases db.len() - i,
{
    if i < db.len() {
        lemma_find_from(db, id, i + 1);
    }
}

proof fn lemma_insert_unique(db: Seq<CardView>, c: CardView)
    requires
        ids_unique(db),
    ensures
        ids_unique(db_insert(db, c)),
        db_insert(db, c).contains(c),
{
    lemma_find_from(db, c.id, 0);
    let r = db_insert(db, c);
    match find_from(db, c.id, 0) {
        Some(k) => {
            assert(r[k] == c);
        },
        None => {
            assert(r[db.len() as int] == c);
        },
    }
}

/// In-memory card database, indexed by card identifier.
#[derive(Debug)]
pub struct CardDb {
    by_id: Vec<Card>,
}

impl View for CardDb {
    type V = Seq<CardView>;

    closed spec fn view(&self) -> Seq<CardView> {
        self.by_id@.map_values(|c: Card| c@)
    }
}

impl CardDb {
    #[verifier::type_invariant]
    pub(crate) open spec fn inv(self) -> bool {
        ids_unique(self@)
    }

    /// An empty database.
    pub fn new() -> (r: Self)
        ensures
            r@ == Seq::<CardView>::empty(),
    {
        let cards: Vec<Card> = Vec::new();
        assert(cards@.map_values(|c: Card| c@) =~= Seq::<CardView>::empty());
        let r = CardDb { by_id: cards };
        assert(r@ =~= Seq::<CardView>::empty());
        r
    }

    fn find(&self, id: &str) -> (r: Option<usize>)
        ensures
            match r {
                Some(k) => find_from(self@, id@, 0) == Some(k as int),
                None => find_from(self@, id@, 0) is None,
            },
    {
        let key = String::from_str(id);
        let mut i: usize = 0;
        while i < self.by_id.len()
            invariant
                key@ == id@,
                i <= self.by_id@.len(),
                find_from(self@, id@, 0) == find_from(self@, id@, i as int),
            decreases self.by_id@.len() - i,
        {
            if self.by_id[i].id == key {
                return Some(i);
            }
            i = i + 1;
        }
        None
    }

    /// Adds a card, replacing any card with the same identifier.
    pub fn insert(&mut self, card: Card)
        ensures
            final(self)@ == db_insert(old(self)@, card@),
    {
        proof {
            use_type_invariant(&*self);
            lemma_find_from(self@, card@.id, 0);
            lemma_insert_unique(self@, card@);
        }
        let ghost before = self@;
        let found = self.find(card.id.as_str());
        let mut cards: Vec<Card> = Vec::new();
        std::mem::swap(&mut cards, &mut self.by_id);
        assert(cards@.map_values(|c: Card| c@) == before);
        match found {
            Some(k) => {
                cards.set(k, card);
            },
            None => {
                cards.push(card);
            },
        }
        assert(cards@.map_values(|c: Card| c@) =~= db_insert(before, card@));
        self.by_id = cards;
    }

    /// The char range of line `k` of `text`, given the pieces of `text` at newlines.
    fn line_bounds(chars: &Vec<char>, pieces: &Vec<(usize, usize)>, k: usize) -> (r: (
        usize,
        usize,
    ))
        requires
            ranges_match_split(chars@, 0, chars@.len() as int, pieces@, '\n'),
            k < lines_seq(chars@).len(),
        ensures
            r.0 <= r.1 <= chars@.len(),
            chars@.subrange(r.0 as int, r.1 as int) == lines_seq(chars@)[k as int],
    {
        let ghost ps = split_seq(chars@, '\n');
        assert(chars@.subrange(0, chars@.len() as int) =~= chars@);
        proof {
            lemma_split_nonempty(chars@, '\n');
        }
        let np = pieces.len();
        let (a, b0) = pieces[k];
        assert(pieces@[k as int] == (a, b0));
        assert(chars@.subrange(a as int, b0 as int) == ps[k as int]);
        let strip = k + 1 < np && b0 > a && chars[b0 - 1] == '\r';
        let b = if strip {
            b0 - 1
        } else {
            b0
        };
        assert(chars@.subrange(a as int, b as int) == lines_seq(chars@)[k as int]) by {
            if strip {
                assert(chars@.subrange(a as int, b as int) =~= ps[k as int].drop_last());
            }
        }
        (a, b)
    }

    /// Adds the card that the line `text[a..b]` describes, if it is one.
    fn add_line(&mut self, text: &str, chars: &Vec<char>, a: usize, b: usize)
        requires
            chars@ == text@,
            a <= b <= chars@.len(),
        ensures
            ({
                let l = chars@.subrange(a as int, b as int);
                final(self)@ == if blank(l) {
                    old(self)@
                } else {
                    match card_from_record(l) {
                        Some(c) => db_insert(old(self)@, c),
                        None => old(self)@,
                    }
                }
            }),
    {
        if !range_is_blank(chars, a, b) {
            let line = string_of_range(text, a, b);
            match Card::from_tsv(line.as_str()) {
                Some(c) => self.insert(c),
                None => {},
            }
        }
    }

    /// Builds a database from TSV records, one per line; blank lines and lines
    /// that are no record are skipped, and a later record replaces an earlier one
    /// with the same identifier.
    pub fn from_tsv_text(text: &str) -> (r: Self)
        ensures
            r@ == db_from_text(text@),
    {
        let chars = chars_of(text);
        let n = chars.len();
        let pieces = split_ranges(&chars, 0, n, '\n');
        let ghost ls = lines_seq(text@);
        proof {
            lemma_split_nonempty(text@, '\n');
        }
        assert(chars@.subrange(0, n as int) =~= text@);
        let np = pieces.len();
        let (la, lb) = pieces[np - 1];
        assert(pieces@[np - 1] == (la, lb));
        let m = if la == lb {
            np - 1
        } else {
            np
        };
        assert(ls.len() == m);
        let mut db = CardDb::new();
        let mut k: usize = 0;
        while k < m
            invariant
                chars@ == text@,
                n == chars@.len(),
                ranges_match_split(chars@, 0, n as int, pieces@, '\n'),
                ls == lines_seq(text@),
                m == ls.len(),
                k <= m,
                db@ == load_lines(ls, k as int),
            decreases m - k,
        {
            let (a, b) = Self::line_bounds(&chars, &pieces, k);
            db.add_line(text, &chars, a, b);
            k = k + 1;
        }
        db
    }

    /// Load the embedded sample of the Aurora pool.
    pub fn load() -> (r: Self)
        ensures
            r@ == db_from_text(AURORA_TSV@),
    {
        Self::from_tsv_text(AURORA_TSV)
    }

    /// The card with the given identifier.
    pub fn get(&self, id: &str) -> (r: Option<&Card>)
        ensures
            match r {
                Some(c) => lookup(self@, id@) == Some(c@),
                None => lookup(self@, id@) is None,
            },
    {
        proof {
            lemma_find_from(self@, id@, 0);
        }
        match self.find(id) {
            Some(k) => Some(&self.by_id[k]),
            None => None,
        }
    }

    pub fn len(&self) -> (r: usize)
        ensures
            r == self@.len(),
    {
        self.by_id.len()
    }

    pub fn is_empty(&self) -> (r: bool)
        ensures
            r == (self@.len() == 0),
    {
        self.by_id.len() == 0
    }

    /// Every card, in database order.
    pub fn iter(&self) -> (r: &[Card])
        ensures
            r@.map_values(|c: Card| c@) == self@,
    {
        self.by_id.as_slice()
    }

    /// All identifiers whose card has the given type, in text order.
    pub fn ids_of_type(&self, t: CardType) -> (r: Vec<&str>)
        ensures
            views_of(r@) == ids_with_type(self@, t, self@.len() as int).sort_by(text_order()),
    {
        let mut ids: Vec<&str> = Vec::new();
        let mut keys: Vec<Vec<char>> = Vec::new();
        let mut i: usize = 0;
        while i < self.by_id.len()
            invariant
                i <= self.by_id@.len(),
                keys@.len() == ids@.len(),
                forall|j: int| 0 <= j < keys@.len() ==> (#[trigger] keys@[j])@ == ids@[j]@,
                views_of(ids@) == ids_with_type(self@, t, i as int),
            decreases self.by_id@.len() - i,
        {
            let c = &self.by_id[i];
            if c.is_type(t) {
                let id = c.id.as_str();
                keys.push(chars_of(id));
                ids.push(id);
                assert(views_of(ids@) =~= ids_with_type(self@, t, i + 1));
            } else {
                assert(views_of(ids@) =~= ids_with_type(self@, t, i + 1));
            }
            i = i + 1;
        }
        sort_texts(ids, keys)
    }
}

impl Clone for CardDb {
    fn clone(&self) -> (r: Self)
        ensures
            r@ == self@,
    {
        proof {
            use_type_invariant(self);
        }
        let mut cards: Vec<Card> = Vec::new();
        let n = self.by_id.len();
        let mut i: usize = 0;
        while i < n
            invariant
                n == self.by_id@.len(),
                i <= n,
                cards@.map_values(|c: Card| c@) == self@.take(i as int),
            decreases n - i,
        {
            let c = self.by_id[i].duplicate();
            let ghost prev = cards@.map_values(|c: Card| c@);
            cards.push(c);
            assert(cards@.map_values(|c: Card| c@) =~= prev.push(self@[i as int]));
            assert(self@.take(i + 1) =~= self@.take(i as int).push(self@[i as int]));
            i = i + 1;
        }
        assert(self@.take(n as int) =~= self@);
        CardDb { by_id: cards }
    }
}

impl Default for CardDb {
    fn default() -> (r: Self)
        ensures
            r@ == db_from_text(AURORA_TSV@),
    {
        Self::load()
    }
}

/// Each identifier names at most one card after loading: a later record for an
/// identifier replaces the earlier one.
pub proof fn law_loaded_ids_unique(t: Seq<char>)
    ensures
        ids_unique(db_from_text(t)),
{
    lemma_load_unique(lines_seq(t), lines_seq(t).len() as int);
}

proof fn lemma_load_unique(lines: Seq<Seq<char>>, n: int)
    ensures
        ids_unique(load_lines(lines, n)),
    decreases n,
{
    if n > 0 {
        lemma_load_unique(lines, n - 1);
        let l = lines[n - 1];
        if !blank(l) {
            match card_from_record(l) {
                Some(c) => lemma_insert_unique(load_lines(lines, n - 1), c),
                None => {},
            }
        }
    }
}

/// After an insert, looking up the inserted card's identifier finds that card.
pub proof fn law_insert_then_lookup(db: Seq<CardView>, c: CardView)
    requires
        ids_unique(db),
    ensures
        lookup(db_insert(db, c), c.id) == Some(c),
{
    lemma_find_from(db, c.id, 0);
    lemma_insert_unique(db, c);
    let r = db_insert(db, c);
    lemma_find_from(r, c.id, 0);
    match find_from(db, c.id, 0) {
        Some(k) => {
            assert(r[k] == c);
        },
        None => {
            assert(r[db.len() as int] == c);
        },
    }
}

} // verus!

//! The matches of one group: each pair of players at most once, with its outcome.

use crate::ids::{
    lemma_pair_precedes_asymmetric, lemma_pair_precedes_total, lemma_pair_precedes_transitive,
    pair_precedes, precedes, IdPair, Rank, ID,
};
use vstd::prelude::*;

verus! {

/// How a match stands, seen from the first player of its pair.
#[derive(Debug, Clone, Copy, PartialEq, Eq, Structural)]
pub enum Standing {
    /// The first player of the pair has won.
    Win,
    /// The second player of the pair has won.
    Loss,
    /// The match has not been decided yet.
    Tbd,
}

/// The outcome of a match as a feed reports it.
#[derive(Debug)]
pub enum MatchOutcome {
    /// The match is over and this player has won it.
    Decided(ID),
    /// The match has not been decided yet.
    Pending,
}

/// One match of a group as the contracts see it: the pair, smaller token
/// first, and how the match stands.
pub struct Fixture {
    pub pair: (Seq<u8>, Seq<u8>),
    pub standing: Standing,
}

/// The standing that `outcome` means for `pair`: none where the winner is not
/// one of the two players.
pub open spec fn standing_of(pair: (Seq<u8>, Seq<u8>), outcome: MatchOutcome) -> Option<Standing> {
    match outcome {
        MatchOutcome::Pending => Some(Standing::Tbd),
        MatchOutcome::Decided(winner) => if winner@ == pair.0 {
            Some(Standing::Win)
        } else if winner@ == pair.1 {
            Some(Standing::Loss)
        } else {
            None
        },
    }
}

impl MatchOutcome {
    /// The standing that this outcome means for `pair`, if it has one.
    pub fn standing_in(&self, pair: &IdPair) -> (standing: Option<Standing>)
        ensures
            standing == standing_of(pair@, *self),
    {
        match self {
            MatchOutcome::Pending => Some(Standing::Tbd),
            MatchOutcome::Decided(winner) => if winner.same(pair.first()) {
                Some(Standing::Win)
            } else if winner.same(pair.second()) {
                Some(Standing::Loss)
            } else {
                None
            },
        }
    }
}

/// Every fixture joins two distinct players, and the fixtures stand in
/// strictly ascending order of their pairs, so that no pair occurs twice.
pub open spec fn ordered(fs: Seq<Fixture>) -> bool {
    &&& forall|i: int| #![trigger fs[i]] 0 <= i < fs.len() ==> precedes(fs[i].pair.0, fs[i].pair.1)
    &&& forall|i: int, j: int|
        #![trigger fs[i], fs[j]]
        0 <= i < j < fs.len() ==> pair_precedes(fs[i].pair, fs[j].pair)
}

/// `k` is where the pair `q` belongs among `fs`: every fixture below `k` has
/// a smaller pair, and the fixture at `k`, if there is one, has not.
pub open spec fn is_position(fs: Seq<Fixture>, q: (Seq<u8>, Seq<u8>), k: int) -> bool {
    &&& 0 <= k <= fs.len()
    &&& forall|i: int| #![trigger fs[i]] 0 <= i < k ==> pair_precedes(fs[i].pair, q)
    &&& k < fs.len() ==> !pair_precedes(fs[k].pair, q)
}

/// The place of the pair `q` among `fs`.
pub open spec fn position(fs: Seq<Fixture>, q: (Seq<u8>, Seq<u8>)) -> int {
    choose|k: int| is_position(fs, q, k)
}

/// `fs` after the fixture `f` was registered: `f` replaces the fixture of
/// the same pair if there is one, and is put in at its place otherwise.
pub open spec fn place(fs: Seq<Fixture>, f: Fixture) -> Seq<Fixture> {
    let k = position(fs, f.pair);
    if k < fs.len() && fs[k].pair == f.pair {
        fs.update(k, f)
    } else {
        fs.insert(k, f)
    }
}

/// Some fixture of `fs` is about the pair `q`.
pub open spec fn holds_pair(fs: Seq<Fixture>, q: (Seq<u8>, Seq<u8>)) -> bool {
    exists|i: int| 0 <= i < fs.len() && (#[trigger] fs[i]).pair == q
}

/// How the match of the pair `q` stands according to `fs`, if it holds one.
pub open spec fn lookup(fs: Seq<Fixture>, q: (Seq<u8>, Seq<u8>)) -> Option<Standing> {
    if holds_pair(fs, q) {
        let i = choose|i: int| 0 <= i < fs.len() && (#[trigger] fs[i]).pair == q;
        Some(fs[i].standing)
    } else {
        None
    }
}

proof fn lemma_position_from(fs: Seq<Fixture>, q: (Seq<u8>, Seq<u8>), k: int)
    requires
        0 <= k <= fs.len(),
        forall|i: int| #![trigger fs[i]] 0 <= i < k ==> pair_precedes(fs[i].pair, q),
    ensures
        exists|m: int| is_position(fs, q, m),
    decreases fs.len() - k,
{
    if k < fs.len() && pair_precedes(fs[k].pair, q) {
        lemma_position_from(fs, q, k + 1);
    } else {
        assert(is_position(fs, q, k));
    }
}

/// Every pair has exactly one place among any fixtures.
pub proof fn lemma_position(fs: Seq<Fixture>, q: (Seq<u8>, Seq<u8>))
    ensures
        is_position(fs, q, position(fs, q)),
        forall|k: int| is_position(fs, q, k) ==> k == position(fs, q),
{
    lemma_position_from(fs, q, 0);
    let p = position(fs, q);
    assert forall|k: int| is_position(fs, q, k) implies k == p by {
        if k < p {
            assert(pair_precedes(fs[k].pair, q));
        } else if p < k {
            assert(pair_precedes(fs[p].pair, q));
        }
    }
}

/// Among ordered fixtures a pair is found at its place or nowhere.
pub proof fn lemma_lookup_at_position(fs: Seq<Fixture>, q: (Seq<u8>, Seq<u8>))
    requires
        ordered(fs),
    ensures
        holds_pair(fs, q) <==> (position(fs, q) < fs.len() && fs[position(fs, q)].pair == q),
        holds_pair(fs, q) ==> lookup(fs, q) == Some(fs[position(fs, q)].standing),
{
    lemma_position(fs, q);
    let p = position(fs, q);
    if holds_pair(fs, q) {
        let i = choose|i: int| 0 <= i < fs.len() && (#[trigger] fs[i]).pair == q;
        if i < p {
            assert(pair_precedes(fs[i].pair, q));
            lemma_pair_precedes_asymmetric(fs[i].pair, q);
        } else if p < i {
            assert(pair_precedes(fs[p].pair, fs[i].pair));
        }
        assert(i == p);
    }
}

/// A pair that `fs` does not hold precedes every fixture from its place on.
proof fn lemma_above_position(fs: Seq<Fixture>, q: (Seq<u8>, Seq<u8>), j: int)
    requires
        ordered(fs),
        !holds_pair(fs, q),
        position(fs, q) <= j < fs.len(),
    ensures
        pair_precedes(q, fs[j].pair),
{
    lemma_position(fs, q);
    let k = position(fs, q);
    lemma_pair_precedes_total(q, fs[j].pair);
    if pair_precedes(fs[j].pair, q) {
        if k < j {
            assert(pair_precedes(fs[k].pair, fs[j].pair));
            lemma_pair_precedes_transitive(fs[k].pair, fs[j].pair, q);
        }
    }
}

proof fn lemma_place_ordered(fs: Seq<Fixture>, f: Fixture)
    requires
        ordered(fs),
        precedes(f.pair.0, f.pair.1),
    ensures
        ordered(place(fs, f)),
{
    lemma_position(fs, f.pair);
    lemma_lookup_at_position(fs, f.pair);
    let k = position(fs, f.pair);
    let gs = place(fs, f);
    if holds_pair(fs, f.pair) {
        assert forall|i: int, j: int| 0 <= i < j < gs.len() implies pair_precedes(
            gs[i].pair,
            gs[j].pair,
        ) by {
            assert(gs[i].pair == fs[i].pair);
            assert(gs[j].pair == fs[j].pair);
        }
        assert forall|i: int| 0 <= i < gs.len() implies precedes(gs[i].pair.0, gs[i].pair.1) by {
            assert(gs[i].pair == fs[i].pair);
        }
    } else {
        assert(gs.len() == fs.len() + 1);
        assert(gs[k] == f);
        assert forall|i: int| 0 <= i < k implies gs[i] == fs[i] by {}
        assert forall|i: int| k < i < gs.len() implies gs[i] == fs[i - 1] by {}
        assert forall|i: int, j: int| 0 <= i < j < gs.len() implies pair_precedes(
            gs[i].pair,
            gs[j].pair,
        ) by {
            if j < k {
                assert(pair_precedes(fs[i].pair, fs[j].pair));
            } else if j == k {
                assert(pair_precedes(fs[i].pair, f.pair));
            } else if i < k {
                lemma_above_position(fs, f.pair, j - 1);
                assert(pair_precedes(fs[i].pair, f.pair));
                lemma_pair_precedes_transitive(fs[i].pair, f.pair, fs[j - 1].pair);
            } else if i == k {
                lemma_above_position(fs, f.pair, j - 1);
            } else {
                assert(pair_precedes(fs[i - 1].pair, fs[j - 1].pair));
            }
        }
        assert forall|i: int| 0 <= i < gs.len() implies precedes(gs[i].pair.0, gs[i].pair.1) by {
            if i < k {
                assert(gs[i] == fs[i]);
            } else if i > k {
                assert(gs[i] == fs[i - 1]);
            }
        }
    }
}

proof fn lemma_place_lookup(fs: Seq<Fixture>, f: Fixture, q: (Seq<u8>, Seq<u8>))
    requires
        ordered(fs),
        ordered(place(fs, f)),
    ensures
        lookup(place(fs, f), q) == if q == f.pair {
            Some(f.standing)
        } else {
            lookup(fs, q)
        },
{
    lemma_position(fs, f.pair);
    lemma_lookup_at_position(fs, f.pair);
    let k = position(fs, f.pair);
    let gs = place(fs, f);
    let hit = k < fs.len() && fs[k].pair == f.pair;
    lemma_lookup_at_position(gs, q);
    lemma_lookup_at_position(fs, q);
    lemma_position(gs, q);
    lemma_position(fs, q);
    assert(gs[k] == f);
    if q == f.pair {
        assert(holds_pair(gs, q));
    } else if holds_pair(fs, q) {
        let i = position(fs, q);
        let j = if hit || i < k {
            i
        } else {
            i + 1
        };
        assert(gs[j] == fs[i]);
        assert(holds_pair(gs, q));
    } else if holds_pair(gs, q) {
        let j = position(gs, q);
        let i = if hit || j < k {
            j
        } else {
            j - 1
        };
        assert(fs[i] == gs[j]);
        assert(holds_pair(fs, q));
    }
}

/// Registering a fixture keeps the order and is last-write-wins: afterwards
/// its pair stands as the fixture says, and every other pair as before.
pub proof fn lemma_place(fs: Seq<Fixture>, f: Fixture)
    requires
        ordered(fs),
        precedes(f.pair.0, f.pair.1),
    ensures
        ordered(place(fs, f)),
        forall|q: (Seq<u8>, Seq<u8>)|
            lookup(#[trigger] place(fs, f), q) == if q == f.pair {
                Some(f.standing)
            } else {
                lookup(fs, q)
            },
{
    lemma_place_ordered(fs, f);
    assert forall|q: (Seq<u8>, Seq<u8>)|
        lookup(#[trigger] place(fs, f), q) == if q == f.pair {
            Some(f.standing)
        } else {
            lookup(fs, q)
        } by {
        lemma_place_lookup(fs, f, q);
    }
}

/// A fixture with its pair held as tokens.
#[derive(Debug)]
struct Entry {
    pair: IdPair,
    standing: Standing,
}

/// The matches of one group, each pair once, in ascending order of the pairs.
#[derive(Debug)]
pub struct GroupRecord {
    entries: Vec<Entry>,
}

impl View for GroupRecord {
    type V = Seq<Fixture>;

    closed spec fn view(&self) -> Seq<Fixture> {
        Seq::new(
            self.entries@.len(),
            |i: int| Fixture { pair: self.entries@[i].pair@, standing: self.entries@[i].standing },
        )
    }
}

impl Clone for GroupRecord {
    fn clone(&self) -> (copy: Self)
        ensures
            copy@ == self@,
    {
        let mut entries: Vec<Entry> = Vec::new();
        let mut i: usize = 0;
        while i < self.entries.len()
            invariant
                i <= self.entries@.len(),
                entries@.len() == i,
                forall|j: int|
                    0 <= j < i ==> (#[trigger] entries@[j]).pair@ == self.entries@[j].pair@
                        && entries@[j].standing == self.entries@[j].standing,
            decreases self.entries@.len() - i,
        {
            entries.push(
                Entry { pair: self.entries[i].pair.clone(), standing: self.entries[i].standing },
            );
            i += 1;
        }
        let copy = GroupRecord { entries };
        assert(copy@ =~= self@);
        copy
    }
}

impl GroupRecord {
    /// The record's invariant: see [`ordered`].
    pub open spec fn wf(&self) -> bool {
        ordered(self@)
    }

    /// A record without matches.
    pub fn new() -> (record: Self)
        ensures
            record.wf(),
            record@ == Seq::<Fixture>::empty(),
    {
        let record = GroupRecord { entries: Vec::new() };
        assert(record@ =~= Seq::<Fixture>::empty());
        record
    }

    /// The number of matches.
    pub fn len(&self) -> (n: usize)
        ensures
            n == self@.len(),
    {
        self.entries.len()
    }

    /// The pair of the match at `i`, counted in ascending order of the pairs.
    pub fn pair_at(&self, i: usize) -> (pair: &IdPair)
        requires
            i < self@.len(),
        ensures
            pair@ == self@[i as int].pair,
    {
        &self.entries[i].pair
    }

    /// How the match at `i` stands.
    pub fn standing_at(&self, i: usize) -> (standing: Standing)
        requires
            i < self@.len(),
        ensures
            standing == self@[i as int].standing,
    {
        self.entries[i].standing
    }

    /// The place of `pair` among the matches, and whether that match is there.
    fn find(&self, pair: &IdPair) -> (at: (usize, bool))
        ensures
            is_position(self@, pair@, at.0 as int),
            at.1 <==> (at.0 < self@.len() && self@[at.0 as int].pair == pair@),
    {
        let mut k: usize = 0;
        while k < self.entries.len()
            invariant
                k <= self@.len(),
                self@.len() == self.entries@.len(),
                forall|i: int|
                    #![trigger self@[i]]
                    0 <= i < k ==> pair_precedes(self@[i].pair, pair@),
            decreases self.entries@.len() - k,
        {
            match self.entries[k].pair.rank(pair) {
                Rank::Before => {
                    k += 1;
                },
                Rank::Same => {
                    proof {
                        assert(self@[k as int].pair == pair@);
                        if pair_precedes(pair@, pair@) {
                            lemma_pair_precedes_asymmetric(pair@, pair@);
                        }
                    }
                    return (k, true);
                },
                Rank::After => {
                    proof {
                        assert(self@[k as int].pair == self.entries@[k as int].pair@);
                        lemma_pair_precedes_asymmetric(pair@, self@[k as int].pair);
                    }
                    return (k, false);
                },
            }
        }
        (k, false)
    }

    /// How the match of `pair` stands, if the record holds it.
    pub fn outcome(&self, pair: &IdPair) -> (standing: Option<Standing>)
        requires
            self.wf(),
        ensures
            standing == lookup(self@, pair@),
    {
        let (k, found) = self.find(pair);
        proof {
            lemma_position(self@, pair@);
            lemma_lookup_at_position(self@, pair@);
        }
        if found {
            Some(self.entries[k].standing)
        } else {
            None
        }
    }

    /// Registers how the match of `pair` stands. A pair registered before is
    /// overwritten: the last registration counts.
    pub fn register(&mut self, pair: IdPair, standing: Standing)
        requires
            old(self).wf(),
            pair.wf(),
        ensures
            final(self).wf(),
            final(self)@ == place(old(self)@, Fixture { pair: pair@, standing }),
            forall|q: (Seq<u8>, Seq<u8>)|
                lookup(#[trigger] final(self)@, q) == if q == pair@ {
                    Some(standing)
                } else {
                    lookup(old(self)@, q)
                },
    {
        let ghost before = self@;
        let ghost f = Fixture { pair: pair@, standing };
        let (k, found) = self.find(&pair);
        proof {
            lemma_position(before, f.pair);
            lemma_place(before, f);
        }
        if found {
            self.entries.set(k, Entry { pair, standing });
        } else {
            self.entries.insert(k, Entry { pair, standing });
        }
        assert(self@ =~= place(before, f));
    }
}

} // verus!

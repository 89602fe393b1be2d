//! The match results of a tournament as they arrive, group by group.

use crate::ids::IdPair;
use crate::record::{
    lemma_place, lookup, ordered, place, standing_of, Fixture, GroupRecord, MatchOutcome, Standing,
};
use vstd::prelude::*;

verus! {

/// The groups stand in strictly ascending order of their keys, and the
/// fixtures of each are in order.
pub open spec fn groups_ordered(gs: Seq<(u64, Seq<Fixture>)>) -> bool {
    &&& forall|i: int| #![trigger gs[i]] 0 <= i < gs.len() ==> ordered(gs[i].1)
    &&& forall|i: int, j: int| #![trigger gs[i], gs[j]] 0 <= i < j < gs.len() ==> gs[i].0 < gs[j].0
}

/// `k` is where the group `key` belongs among `gs`: every group below `k`
/// has a smaller key, and the group at `k`, if there is one, has not.
pub open spec fn is_slot(gs: Seq<(u64, Seq<Fixture>)>, key: u64, k: int) -> bool {
    &&& 0 <= k <= gs.len()
    &&& forall|i: int| #![trigger gs[i]] 0 <= i < k ==> gs[i].0 < key
    &&& k < gs.len() ==> gs[k].0 >= key
}

/// The place of the group `key` among `gs`.
pub open spec fn slot(gs: Seq<(u64, Seq<Fixture>)>, key: u64) -> int {
    choose|k: int| is_slot(gs, key, k)
}

/// Some group of `gs` has the key `key`.
pub open spec fn has_group(gs: Seq<(u64, Seq<Fixture>)>, key: u64) -> bool {
    exists|i: int| 0 <= i < gs.len() && (#[trigger] gs[i]).0 == key
}

/// The fixtures of the group `key` according to `gs`: none for a group that
/// `gs` does not hold.
pub open spec fn fixtures_of(gs: Seq<(u64, Seq<Fixture>)>, key: u64) -> Seq<Fixture> {
    if has_group(gs, key) {
        let i = choose|i: int| 0 <= i < gs.len() && (#[trigger] gs[i]).0 == key;
        gs[i].1
    } else {
        Seq::empty()
    }
}

/// `gs` with `fs` as the fixtures of the group `key`: in the place of that
/// group if there is one, and put in at its place otherwise.
pub open spec fn with_group(gs: Seq<(u64, Seq<Fixture>)>, key: u64, fs: Seq<Fixture>) -> Seq<
    (u64, Seq<Fixture>),
> {
    let k = slot(gs, key);
    if k < gs.len() && gs[k].0 == key {
        gs.update(k, (key, fs))
    } else {
        gs.insert(k, (key, fs))
    }
}

/// `gs` after the fixture `f` was registered for the group `key`.
pub open spec fn ingested(gs: Seq<(u64, Seq<Fixture>)>, key: u64, f: Fixture) -> Seq<
    (u64, Seq<Fixture>),
> {
    with_group(gs, key, place(fixtures_of(gs, key), f))
}

proof fn lemma_slot_from(gs: Seq<(u64, Seq<Fixture>)>, key: u64, k: int)
    requires
        0 <= k <= gs.len(),
        forall|i: int| #![trigger gs[i]] 0 <= i < k ==> gs[i].0 < key,
    ensures
        exists|m: int| is_slot(gs, key, m),
    decreases gs.len() - k,
{
    if k < gs.len() && gs[k].0 < key {
        lemma_slot_from(gs, key, k + 1);
    } else {
        assert(is_slot(gs, key, k));
    }
}

/// Every key has exactly one place among any groups.
pub proof fn lemma_slot(gs: Seq<(u64, Seq<Fixture>)>, key: u64)
    ensures
        is_slot(gs, key, slot(gs, key)),
        forall|k: int| is_slot(gs, key, k) ==> k == slot(gs, key),
{
    lemma_slot_from(gs, key, 0);
    let p = slot(gs, key);
    assert forall|k: int| is_slot(gs, key, k) implies k == p by {
        if k < p {
            assert(gs[k].0 < key);
        } else if p < k {
            assert(gs[p].0 < key);
        }
    }
}

/// Among ordered groups a key is found at its place or nowhere.
pub proof fn lemma_group_at_slot(gs: Seq<(u64, Seq<Fixture>)>, key: u64)
    requires
        groups_ordered(gs),
    ensures
        has_group(gs, key) <==> (slot(gs, key) < gs.len() && gs[slot(gs, key)].0 == key),
        has_group(gs, key) ==> fixtures_of(gs, key) == gs[slot(gs, key)].1,
        ordered(fixtures_of(gs, key)),
{
    lemma_slot(gs, key);
    let p = slot(gs, key);
    if has_group(gs, key) {
        let i = choose|i: int| 0 <= i < gs.len() && (#[trigger] gs[i]).0 == key;
        if i < p {
            assert(gs[i].0 < key);
        } else if p < i {
            assert(gs[p].0 < gs[i].0);
        }
        assert(i == p);
    }
}

/// Giving a group its fixtures keeps the order of the groups, sets that
/// group and leaves every other group as it was.
pub proof fn lemma_with_group(gs: Seq<(u64, Seq<Fixture>)>, key: u64, fs: Seq<Fixture>)
    requires
        groups_ordered(gs),
        ordered(fs),
    ensures
        groups_ordered(with_group(gs, key, fs)),
        has_group(with_group(gs, key, fs), key),
        forall|g: u64|
            #![trigger has_group(with_group(gs, key, fs), g)]
            g != key ==> (has_group(with_group(gs, key, fs), g) <==> has_group(gs, g)),
        forall|g: u64|
            #![trigger fixtures_of(with_group(gs, key, fs), g)]
            fixtures_of(with_group(gs, key, fs), g) == if g == key {
                fs
            } else {
                fixtures_of(gs, g)
            },
{
    lemma_slot(gs, key);
    let k = slot(gs, key);
    let hs = with_group(gs, key, fs);
    let hit = k < gs.len() && gs[k].0 == key;
    assert(hs[k] == (key, fs));
    if hit {
        assert forall|i: int| 0 <= i < hs.len() implies hs[i].0 == gs[i].0 by {}
    } else {
        assert(hs.len() == gs.len() + 1);
        assert forall|i: int| 0 <= i < k implies hs[i] == gs[i] by {}
        assert forall|i: int| k < i < hs.len() implies hs[i] == gs[i - 1] by {}
        assert forall|i: int, j: int| 0 <= i < j < hs.len() implies hs[i].0 < hs[j].0 by {
            if j < k {
                assert(gs[i].0 < gs[j].0);
            } else if j == k {
                assert(gs[i].0 < key);
            } else if i < k {
                assert(gs[i].0 < key);
                if k < j - 1 {
                    assert(gs[k].0 < gs[j - 1].0);
                }
            } else if i == k {
                if k < j - 1 {
                    assert(gs[k].0 < gs[j - 1].0);
                }
            } else {
                assert(gs[i - 1].0 < gs[j - 1].0);
            }
        }
    }
    assert forall|i: int| 0 <= i < hs.len() implies ordered((#[trigger] hs[i]).1) by {
        if i != k {
            let j = if hit || i < k {
                i
            } else {
                i - 1
            };
            assert(hs[i] == gs[j]);
        }
    }
    assert(groups_ordered(hs));
    assert(has_group(hs, key));
    assert forall|g: u64| g != key implies (has_group(hs, g) <==> has_group(gs, g))
        && fixtures_of(hs, g) == fixtures_of(gs, g) by {
        lemma_group_at_slot(gs, g);
        lemma_group_at_slot(hs, g);
        lemma_slot(gs, g);
        lemma_slot(hs, g);
        if has_group(gs, g) {
            let i = slot(gs, g);
            let j = if hit || i < k {
                i
            } else {
                i + 1
            };
            assert(hs[j] == gs[i]);
            assert(has_group(hs, g));
        } else if has_group(hs, g) {
            let j = slot(hs, g);
            let i = if hit || j < k {
                j
            } else {
                j - 1
            };
            assert(gs[i] == hs[j]);
            assert(has_group(gs, g));
        }
    }
    lemma_group_at_slot(hs, key);
}

/// The matches of one group under its key.
#[derive(Debug)]
struct Group {
    key: u64,
    record: GroupRecord,
}

/// The match results of a tournament: for each group the matches registered
/// so far, each pair once. Groups are kept in ascending order of their keys.
#[derive(Debug)]
pub struct MatchResultStore {
    groups: Vec<Group>,
}

impl View for MatchResultStore {
    type V = Seq<(u64, Seq<Fixture>)>;

    closed spec fn view(&self) -> Seq<(u64, Seq<Fixture>)> {
        Seq::new(self.groups@.len(), |i: int| (self.groups@[i].key, self.groups@[i].record@))
    }
}

impl MatchResultStore {
    /// The store's invariant: see [`groups_ordered`].
    pub open spec fn wf(&self) -> bool {
        groups_ordered(self@)
    }

    /// A store without groups.
    pub fn new() -> (store: Self)
        ensures
            store.wf(),
            store@ == Seq::<(u64, Seq<Fixture>)>::empty(),
    {
        let store = MatchResultStore { groups: Vec::new() };
        assert(store@ =~= Seq::<(u64, Seq<Fixture>)>::empty());
        store
    }

    /// The number of groups.
    pub fn len(&self) -> (n: usize)
        ensures
            n == self@.len(),
    {
        self.groups.len()
    }

    /// The key of the group at `i`, counted in ascending order of the keys.
    pub fn key_at(&self, i: usize) -> (key: u64)
        requires
            i < self@.len(),
        ensures
            key == self@[i as int].0,
    {
        self.groups[i].key
    }

    /// The matches of the group at `i`.
    pub fn record_at(&self, i: usize) -> (record: &GroupRecord)
        requires
            i < self@.len(),
        ensures
            record@ == self@[i as int].1,
    {
        &self.groups[i].record
    }

    /// The place of the group `key`, and whether that group is there.
    fn find(&self, key: u64) -> (at: (usize, bool))
        ensures
            is_slot(self@, key, at.0 as int),
            at.1 <==> (at.0 < self@.len() && self@[at.0 as int].0 == key),
    {
        let mut k: usize = 0;
        while k < self.groups.len()
            invariant
                k <= self@.len(),
                self@.len() == self.groups@.len(),
                forall|i: int| #![trigger self@[i]] 0 <= i < k ==> self@[i].0 < key,
            decreases self.groups@.len() - k,
        {
            let here = self.groups[k].key;
            assert(self@[k as int].0 == here);
            if here < key {
                k += 1;
            } else {
                return (k, here == key);
            }
        }
        (k, false)
    }

    /// Registers the outcome of one match under a group. The same pair
    /// registered again for the same group overwrites what was there: the
    /// last registration counts. The two players of `pair` differ, and a
    /// decided `outcome` names one of them as the winner.
    pub fn ingest(&mut self, group_id: u64, pair: IdPair, outcome: MatchOutcome)
        requires
            old(self).wf(),
            pair.wf(),
            standing_of(pair@, outcome) is Some,
        ensures
            final(self).wf(),
            final(self)@ == ingested(
                old(self)@,
                group_id,
                Fixture { pair: pair@, standing: standing_of(pair@, outcome).unwrap() },
            ),
            forall|g: u64|
                #![trigger fixtures_of(final(self)@, g)]
                g != group_id ==> fixtures_of(final(self)@, g) == fixtures_of(old(self)@, g),
            forall|q: (Seq<u8>, Seq<u8>)|
                #![trigger lookup(fixtures_of(final(self)@, group_id), q)]
                lookup(fixtures_of(final(self)@, group_id), q) == if q == pair@ {
                    standing_of(pair@, outcome)
                } else {
                    lookup(fixtures_of(old(self)@, group_id), q)
                },
    {
        let standing = match outcome.standing_in(&pair) {
            Some(standing) => standing,
            None => Standing::Tbd,
        };
        let ghost before = self@;
        let ghost f = Fixture { pair: pair@, standing };
        let (k, found) = self.find(group_id);
        proof {
            lemma_slot(before, group_id);
            lemma_group_at_slot(before, group_id);
            lemma_place(fixtures_of(before, group_id), f);
            lemma_with_group(before, group_id, place(fixtures_of(before, group_id), f));
        }
        if found {
            self.groups[k].record.register(pair, standing);
        } else {
            let mut record = GroupRecord::new();
            record.register(pair, standing);
            self.groups.insert(k, Group { key: group_id, record });
        }
        assert(self@ =~= ingested(before, group_id, f));
    }

    /// The matches registered for a group: none for a group of which no
    /// match has arrived.
    pub fn finalize(&self, group_id: u64) -> (record: GroupRecord)
        requires
            self.wf(),
        ensures
            record.wf(),
            record@ == fixtures_of(self@, group_id),
    {
        let (k, found) = self.find(group_id);
        proof {
            lemma_slot(self@, group_id);
            lemma_group_at_slot(self@, group_id);
        }
        if found {
            self.groups[k].record.clone()
        } else {
            GroupRecord::new()
        }
    }
}

} // verus!

//! The players of a group: every token that occurs in one of its pairs, once,
//! in ascending order.

use crate::ids::{
    lemma_precedes_asymmetric, lemma_precedes_total, lemma_precedes_transitive, precedes, Rank, ID,
};
use crate::record::{Fixture, GroupRecord};
use vstd::prelude::*;

verus! {

/// The tokens that a list of players holds, in its order.
pub open spec fn tokens(ids: Seq<ID>) -> Seq<Seq<u8>> {
    Seq::new(ids.len(), |i: int| ids[i]@)
}

/// The tokens stand in strictly ascending order, so that none occurs twice.
pub open spec fn ascending(ms: Seq<Seq<u8>>) -> bool {
    forall|i: int, j: int| #![trigger ms[i], ms[j]] 0 <= i < j < ms.len() ==> precedes(ms[i], ms[j])
}

/// `k` is where the token `id` belongs among `ms`: every token below `k` is
/// smaller, and the token at `k`, if there is one, is not.
pub open spec fn is_seat(ms: Seq<Seq<u8>>, id: Seq<u8>, k: int) -> bool {
    &&& 0 <= k <= ms.len()
    &&& forall|i: int| #![trigger ms[i]] 0 <= i < k ==> precedes(ms[i], id)
    &&& k < ms.len() ==> !precedes(ms[k], id)
}

/// The place of the token `id` among `ms`. For a member of an ascending list
/// this is its index.
pub open spec fn seat(ms: Seq<Seq<u8>>, id: Seq<u8>) -> int {
    choose|k: int| is_seat(ms, id, k)
}

/// The token `id` sits among `ms`: at its place stands the token itself.
pub open spec fn sits(ms: Seq<Seq<u8>>, id: Seq<u8>) -> bool {
    0 <= seat(ms, id) < ms.len() && ms[seat(ms, id)] == id
}

/// `ms` with the token `id` among its members.
pub open spec fn enrol(ms: Seq<Seq<u8>>, id: Seq<u8>) -> Seq<Seq<u8>> {
    let k = seat(ms, id);
    if k < ms.len() && ms[k] == id {
        ms
    } else {
        ms.insert(k, id)
    }
}

/// The players of the fixtures `fs`, in ascending order.
pub open spec fn roster(fs: Seq<Fixture>) -> Seq<Seq<u8>>
    decreases fs.len(),
{
    if fs.len() == 0 {
        Seq::empty()
    } else {
        enrol(enrol(roster(fs.drop_last()), fs.last().pair.0), fs.last().pair.1)
    }
}

/// The token `id` is one of the two players of some fixture of `fs`.
pub open spec fn plays(fs: Seq<Fixture>, id: Seq<u8>) -> bool {
    exists|i: int|
        0 <= i < fs.len() && ((#[trigger] fs[i]).pair.0 == id || fs[i].pair.1 == id)
}

proof fn lemma_seat_from(ms: Seq<Seq<u8>>, id: Seq<u8>, k: int)
    requires
        0 <= k <= ms.len(),
        forall|i: int| #![trigger ms[i]] 0 <= i < k ==> precedes(ms[i], id),
    ensures
        exists|m: int| is_seat(ms, id, m),
    decreases ms.len() - k,
{
    if k < ms.len() && precedes(ms[k], id) {
        lemma_seat_from(ms, id, k + 1);
    } else {
        assert(is_seat(ms, id, k));
    }
}

/// Every token has exactly one place among any tokens.
pub proof fn lemma_seat(ms: Seq<Seq<u8>>, id: Seq<u8>)
    ensures
        is_seat(ms, id, seat(ms, id)),
        forall|k: int| is_seat(ms, id, k) ==> k == seat(ms, id),
{
    lemma_seat_from(ms, id, 0);
    let p = seat(ms, id);
    assert forall|k: int| is_seat(ms, id, k) implies k == p by {
        if k < p {
            assert(precedes(ms[k], id));
        } else if p < k {
            assert(precedes(ms[p], id));
        }
    }
}

/// In an ascending list a member sits at its place, and only there.
pub proof fn lemma_seat_of_member(ms: Seq<Seq<u8>>, id: Seq<u8>)
    requires
        ascending(ms),
    ensures
        ms.contains(id) <==> (seat(ms, id) < ms.len() && ms[seat(ms, id)] == id),
        forall|i: int| 0 <= i < ms.len() && ms[i] == id ==> i == seat(ms, id),
{
    lemma_seat(ms, id);
    let p = seat(ms, id);
    assert forall|i: int| 0 <= i < ms.len() && ms[i] == id implies i == p by {
        if i < p {
            assert(precedes(ms[i], id));
            lemma_precedes_asymmetric(ms[i], id);
        } else if p < i {
            assert(precedes(ms[p], ms[i]));
        }
    }
    if ms.contains(id) {
        let i = choose|i: int| 0 <= i < ms.len() && ms[i] == id;
        assert(i == p);
    }
}

/// Enrolling keeps the order, keeps every member and adds the one token.
pub proof fn lemma_enrol(ms: Seq<Seq<u8>>, id: Seq<u8>)
    requires
        ascending(ms),
    ensures
        ascending(enrol(ms, id)),
        forall|x: Seq<u8>| #[trigger] enrol(ms, id).contains(x) <==> (x == id || ms.contains(x)),
{
    lemma_seat(ms, id);
    let k = seat(ms, id);
    let gs = enrol(ms, id);
    if k < ms.len() && ms[k] == id {
        assert(ms.contains(id));
    } else {
        assert forall|i: int, j: int| 0 <= i < j < gs.len() implies precedes(gs[i], gs[j]) by {
            if j < k {
                assert(gs[i] == ms[i] && gs[j] == ms[j]);
            } else if j == k {
                assert(gs[i] == ms[i]);
            } else if i < k {
                assert(gs[i] == ms[i] && gs[j] == ms[j - 1]);
                lemma_precedes_total(id, ms[j - 1]);
                if precedes(ms[j - 1], id) {
                    if k < j - 1 {
                        assert(precedes(ms[k], ms[j - 1]));
                        lemma_precedes_transitive(ms[k], ms[j - 1], id);
                    }
                    assert(false);
                }
                if k < j - 1 {
                    assert(precedes(ms[k], ms[j - 1]));
                    lemma_precedes_asymmetric(ms[k], ms[j - 1]);
                }
                lemma_precedes_transitive(ms[i], id, ms[j - 1]);
            } else if i == k {
                assert(gs[j] == ms[j - 1]);
                lemma_precedes_total(id, ms[k]);
                if k < j - 1 {
                    assert(precedes(ms[k], ms[j - 1]));
                    lemma_precedes_transitive(id, ms[k], ms[j - 1]);
                }
            } else {
                assert(gs[i] == ms[i - 1] && gs[j] == ms[j - 1]);
            }
        }
        assert forall|x: Seq<u8>| #[trigger] gs.contains(x) <==> (x == id || ms.contains(x)) by {
            assert(gs[k] == id);
            if ms.contains(x) {
                let i = choose|i: int| 0 <= i < ms.len() && ms[i] == x;
                let j = if i < k {
                    i
                } else {
                    i + 1
                };
                assert(gs[j] == x);
            }
            if gs.contains(x) && x != id {
                let j = choose|j: int| 0 <= j < gs.len() && gs[j] == x;
                let i = if j < k {
                    j
                } else {
                    j - 1
                };
                assert(ms[i] == x);
            }
        }
    }
}

/// The roster is ascending and holds exactly the tokens that play.
pub proof fn lemma_roster(fs: Seq<Fixture>)
    ensures
        ascending(roster(fs)),
        forall|id: Seq<u8>| #[trigger] roster(fs).contains(id) <==> plays(fs, id),
    decreases fs.len(),
{
    if fs.len() > 0 {
        let init = fs.drop_last();
        let last = fs.last();
        lemma_roster(init);
        let once = enrol(roster(init), last.pair.0);
        lemma_enrol(roster(init), last.pair.0);
        lemma_enrol(once, last.pair.1);
        assert forall|id: Seq<u8>| #[trigger] roster(fs).contains(id) <==> plays(fs, id) by {
            assert(roster(fs).contains(id) <==> (id == last.pair.1 || once.contains(id)));
            assert(once.contains(id) <==> (id == last.pair.0 || roster(init).contains(id)));
            assert(roster(init).contains(id) <==> plays(init, id));
            if plays(init, id) {
                let i = choose|i: int|
                    0 <= i < init.len() && ((#[trigger] init[i]).pair.0 == id || init[i].pair.1
                        == id);
                assert(fs[i] == init[i]);
            }
            if id == last.pair.0 || id == last.pair.1 {
                assert(fs[fs.len() - 1] == last);
            }
            if plays(fs, id) {
                let i = choose|i: int|
                    0 <= i < fs.len() && ((#[trigger] fs[i]).pair.0 == id || fs[i].pair.1 == id);
                if i < fs.len() - 1 {
                    assert(init[i] == fs[i]);
                }
            }
        }
    }
}

/// The place of `id` among the players `ms`.
pub fn seat_of(ms: &Vec<ID>, id: &ID) -> (at: (usize, bool))
    ensures
        at.0 == seat(tokens(ms@), id@),
        at.0 <= ms@.len(),
        at.1 <==> (at.0 < ms@.len() && ms@[at.0 as int]@ == id@),
{
    let ghost ts = tokens(ms@);
    let mut k: usize = 0;
    proof {
        lemma_seat(ts, id@);
    }
    while k < ms.len()
        invariant
            k <= ms@.len(),
            ts == tokens(ms@),
            forall|i: int| #![trigger ts[i]] 0 <= i < k ==> precedes(ts[i], id@),
            forall|m: int| is_seat(ts, id@, m) ==> m == seat(ts, id@),
        decreases ms@.len() - k,
    {
        match ms[k].rank(id) {
            Rank::Before => {
                assert(ts[k as int] == ms@[k as int]@);
                k += 1;
            },
            Rank::Same => {
                proof {
                    assert(ts[k as int] == id@);
                    if precedes(id@, id@) {
                        lemma_precedes_asymmetric(id@, id@);
                    }
                    assert(is_seat(ts, id@, k as int));
                }
                return (k, true);
            },
            Rank::After => {
                proof {
                    assert(ts[k as int] == ms@[k as int]@);
                    lemma_precedes_asymmetric(id@, ts[k as int]);
                    assert(is_seat(ts, id@, k as int));
                }
                return (k, false);
            },
        }
    }
    proof {
        assert(is_seat(ts, id@, k as int));
    }
    (k, false)
}

/// Puts `id` among the players `ms` unless it is there already.
fn enrol_player(ms: &mut Vec<ID>, id: &ID)
    ensures
        tokens(final(ms)@) == enrol(tokens(old(ms)@), id@),
{
    let ghost before = tokens(ms@);
    let (k, found) = seat_of(ms, id);
    if !found {
        ms.insert(k, id.clone());
    }
    assert(tokens(ms@) =~= enrol(before, id@));
}

/// The players of `record`: each token of its pairs once, in ascending order.
pub fn members(record: &GroupRecord) -> (ms: Vec<ID>)
    ensures
        tokens(ms@) == roster(record@),
        ascending(tokens(ms@)),
        forall|id: Seq<u8>| #[trigger] tokens(ms@).contains(id) <==> plays(record@, id),
{
    let mut ms: Vec<ID> = Vec::new();
    let mut i: usize = 0;
    assert(tokens(ms@) =~= roster(record@.take(0)));
    while i < record.len()
        invariant
            i <= record@.len(),
            tokens(ms@) == roster(record@.take(i as int)),
        decreases record@.len() - i,
    {
        let pair = record.pair_at(i);
        proof {
            let upto = record@.take(i + 1);
            assert(upto.drop_last() =~= record@.take(i as int));
            assert(upto.last() == record@[i as int]);
        }
        enrol_player(&mut ms, pair.first());
        enrol_player(&mut ms, pair.second());
        i += 1;
    }
    proof {
        assert(record@.take(i as int) =~= record@);
        lemma_roster(record@);
    }
    ms
}

} // verus!

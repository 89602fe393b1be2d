//! Enumerating the score vectors that a group can still end on.

use crate::ids::ID;
use crate::members::{members, roster, seat, seat_of, sits, tokens};
use crate::record::{GroupRecord, Standing};
use crate::scores::{
    branches, bump, bump_each, lemma_branches_len, lemma_branches_total, lemma_count_within_total,
    lemma_roster_seats, lemma_seated_prefix, pending, reachable_scores, seated, total, zeros,
};
use vstd::arithmetic::power2::pow2;
use vstd::prelude::*;

verus! {

/// One final win count for each player of a group, in ascending order of the
/// players' tokens.
#[derive(Debug, PartialEq, Eq)]
pub struct ScoreVector {
    wins: Vec<usize>,
}

impl View for ScoreVector {
    type V = Seq<nat>;

    closed spec fn view(&self) -> Seq<nat> {
        Seq::new(self.wins@.len(), |i: int| self.wins@[i] as nat)
    }
}

impl Clone for ScoreVector {
    fn clone(&self) -> (copy: Self)
        ensures
            copy@ == self@,
    {
        let copy = ScoreVector { wins: self.wins.clone() };
        assert(copy@ =~= self@);
        copy
    }
}

/// The win counts that a list of numbers holds.
pub open spec fn counts(wins: Seq<usize>) -> Seq<nat> {
    Seq::new(wins.len(), |i: int| wins[i] as nat)
}

/// The score vectors that a list holds, in its order.
pub open spec fn scores_of(vs: Seq<ScoreVector>) -> Seq<Seq<nat>> {
    Seq::new(vs.len(), |i: int| vs[i]@)
}

impl ScoreVector {
    /// The score vector with the given win counts.
    pub fn new(wins: Vec<usize>) -> (v: Self)
        ensures
            v@ == counts(wins@),
    {
        let v = ScoreVector { wins };
        assert(v@ =~= counts(wins@));
        v
    }

    /// The win counts, one for each player.
    pub fn wins(&self) -> (wins: &Vec<usize>)
        ensures
            counts(wins@) == self@,
    {
        assert(counts(self.wins@) =~= self@);
        &self.wins
    }

    /// The number of players.
    pub fn len(&self) -> (n: usize)
        ensures
            n == self@.len(),
    {
        self.wins.len()
    }

    /// The win count of the player at `k`.
    pub fn wins_at(&self, k: usize) -> (w: usize)
        requires
            k < self@.len(),
        ensures
            w == self@[k as int],
    {
        self.wins[k]
    }

    /// The score vector of `n` players without a win.
    fn blank(n: usize) -> (v: Self)
        ensures
            v@ == zeros(n as nat),
    {
        let mut wins: Vec<usize> = Vec::new();
        let mut i: usize = 0;
        while i < n
            invariant
                i <= n,
                wins@.len() == i,
                forall|j: int| 0 <= j < i ==> wins@[j] == 0,
            decreases n - i,
        {
            wins.push(0);
            i += 1;
        }
        let v = ScoreVector { wins };
        assert(v@ =~= zeros(n as nat));
        v
    }

    /// This vector with one more win for the player at `k`.
    fn bumped(&self, k: usize) -> (v: Self)
        requires
            k < self@.len(),
            self@[k as int] < usize::MAX,
        ensures
            v@ == bump(self@, k as int),
    {
        let mut wins = self.wins.clone();
        assert(wins@ =~= self.wins@);
        let w: usize = wins[k];
        wins.set(k, w + 1);
        let v = ScoreVector { wins };
        assert(v@ =~= bump(self@, k as int));
        v
    }
}

/// The win count of the player `id` in `vector`, whose counts stand in the
/// order of `members`: none for a player who is not among them, or for whom
/// the vector has no count.
pub fn score_of(members: &Vec<ID>, vector: &ScoreVector, id: &ID) -> (wins: Option<usize>)
    ensures
        wins is Some <==> (sits(tokens(members@), id@) && seat(tokens(members@), id@)
            < vector@.len()),
        wins matches Some(count) ==> count == vector@[seat(tokens(members@), id@)],
{
    let (k, found) = seat_of(members, id);
    assert(found ==> tokens(members@)[k as int] == members@[k as int]@);
    if found && k < vector.len() {
        Some(vector.wins_at(k))
    } else {
        None
    }
}

/// Every vector of `vs` with one more win for the player at `k`.
fn bump_all(vs: &Vec<ScoreVector>, k: usize) -> (out: Vec<ScoreVector>)
    requires
        forall|j: int|
            0 <= j < vs@.len() ==> k < (#[trigger] vs@[j])@.len() && vs@[j]@[k as int] < usize::MAX,
    ensures
        scores_of(out@) == bump_each(scores_of(vs@), k as int),
{
    let mut out: Vec<ScoreVector> = Vec::new();
    let mut j: usize = 0;
    while j < vs.len()
        invariant
            j <= vs@.len(),
            out@.len() == j,
            forall|i: int| 0 <= i < j ==> (#[trigger] out@[i])@ == bump(vs@[i]@, k as int),
            forall|i: int|
                0 <= i < vs@.len() ==> k < (#[trigger] vs@[i])@.len() && vs@[i]@[k as int]
                    < usize::MAX,
        decreases vs@.len() - j,
    {
        out.push(vs[j].bumped(k));
        j += 1;
    }
    assert(scores_of(out@) =~= bump_each(scores_of(vs@), k as int));
    out
}

/// Every score vector that `record` can end on, one for each way in which its
/// pending matches can go. The matches are taken in ascending order of their
/// pairs. A decided match gives its winner a win in every vector; a pending
/// match doubles the vectors, those with a win for the first player of the
/// pair before those with a win for the second. Equal vectors are kept.
pub fn enumerate(record: &GroupRecord) -> (out: Vec<ScoreVector>)
    ensures
        scores_of(out@) == reachable_scores(record@),
        out@.len() == pow2(pending(record@)),
        forall|j: int|
            0 <= j < out@.len() ==> (#[trigger] out@[j])@.len() == roster(record@).len() && total(
                out@[j]@,
            ) == record@.len(),
{
    let ms = members(record);
    let ghost ts = tokens(ms@);
    let mut out: Vec<ScoreVector> = Vec::new();
    out.push(ScoreVector::blank(ms.len()));
    proof {
        lemma_roster_seats(record@);
        assert(scores_of(out@) =~= branches(record@.take(0), ts));
    }
    let mut i: usize = 0;
    while i < record.len()
        invariant
            i <= record@.len(),
            ts == tokens(ms@),
            ts == roster(record@),
            seated(record@, ts),
            scores_of(out@) == branches(record@.take(i as int), ts),
        decreases record@.len() - i,
    {
        let pair = record.pair_at(i);
        let (first, _) = seat_of(&ms, pair.first());
        let (second, _) = seat_of(&ms, pair.second());
        proof {
            let upto = record@.take(i as int);
            let next = record@.take(i + 1);
            assert(next.drop_last() =~= upto);
            assert(next.last() == record@[i as int]);
            lemma_seated_prefix(record@, ts, i as int);
            lemma_branches_total(upto, ts);
            assert forall|j: int| 0 <= j < out@.len() implies first < (#[trigger] out@[j])@.len()
                && out@[j]@[first as int] < usize::MAX && second < out@[j]@.len()
                && out@[j]@[second as int] < usize::MAX by {
                assert(out@[j]@ == branches(upto, ts)[j]);
                lemma_count_within_total(out@[j]@, first as int);
                lemma_count_within_total(out@[j]@, second as int);
            }
        }
        let next = match record.standing_at(i) {
            Standing::Win => bump_all(&out, first),
            Standing::Loss => bump_all(&out, second),
            Standing::Tbd => {
                let mut won = bump_all(&out, first);
                let mut lost = bump_all(&out, second);
                let ghost a = won@;
                let ghost b = lost@;
                won.append(&mut lost);
                assert(scores_of(won@) =~= scores_of(a) + scores_of(b));
                won
            },
        };
        out = next;
        i += 1;
    }
    proof {
        assert(record@.take(i as int) =~= record@);
        lemma_branches_len(record@, ts);
        lemma_branches_total(record@, ts);
        assert forall|j: int| 0 <= j < out@.len() implies (#[trigger] out@[j])@.len() == roster(
            record@,
        ).len() && total(out@[j]@) == record@.len() by {
            assert(out@[j]@ == branches(record@, ts)[j]);
        }
    }
    out
}

} // verus!

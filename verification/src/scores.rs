//! The score vectors that a group can still end on.

use crate::members::{
    lemma_roster, lemma_seat, lemma_seat_of_member, plays, roster, seat, sits,
};
use crate::record::{Fixture, Standing};
use vstd::arithmetic::power2::{lemma2_to64, lemma_pow2_unfold, pow2};
use vstd::prelude::*;

verus! {

/// The score vector of `n` players before any match counts.
pub open spec fn zeros(n: nat) -> Seq<nat> {
    Seq::new(n, |i: int| 0nat)
}

/// `v` with one more win for the player at `k`.
pub open spec fn bump(v: Seq<nat>, k: int) -> Seq<nat> {
    if 0 <= k < v.len() {
        v.update(k, (v[k] + 1) as nat)
    } else {
        v
    }
}

/// Every vector of `vs` with one more win for the player at `k`.
pub open spec fn bump_each(vs: Seq<Seq<nat>>, k: int) -> Seq<Seq<nat>> {
    Seq::new(vs.len(), |i: int| bump(vs[i], k))
}

/// The score vectors that the fixtures `fs` can end on, for the players `ms`.
/// A decided fixture gives its winner a win in every vector. A pending one
/// doubles the vectors: first all of them with a win for the first player of
/// the pair, then all of them with a win for the second.
pub open spec fn branches(fs: Seq<Fixture>, ms: Seq<Seq<u8>>) -> Seq<Seq<nat>>
    decreases fs.len(),
{
    if fs.len() == 0 {
        seq![zeros(ms.len())]
    } else {
        let prior = branches(fs.drop_last(), ms);
        let first = seat(ms, fs.last().pair.0);
        let second = seat(ms, fs.last().pair.1);
        match fs.last().standing {
            Standing::Win => bump_each(prior, first),
            Standing::Loss => bump_each(prior, second),
            Standing::Tbd => bump_each(prior, first) + bump_each(prior, second),
        }
    }
}

/// The score vectors that a group with the fixtures `fs` can end on, over its
/// own players in ascending order.
pub open spec fn reachable_scores(fs: Seq<Fixture>) -> Seq<Seq<nat>> {
    branches(fs, roster(fs))
}

/// The number of pending fixtures.
pub open spec fn pending(fs: Seq<Fixture>) -> nat
    decreases fs.len(),
{
    if fs.len() == 0 {
        0
    } else if fs.last().standing == Standing::Tbd {
        pending(fs.drop_last()) + 1
    } else {
        pending(fs.drop_last())
    }
}

/// The number of decided fixtures.
pub open spec fn decided(fs: Seq<Fixture>) -> nat
    decreases fs.len(),
{
    if fs.len() == 0 {
        0
    } else if fs.last().standing == Standing::Tbd {
        decided(fs.drop_last())
    } else {
        decided(fs.drop_last()) + 1
    }
}

/// The sum of all win counts of a vector.
pub open spec fn total(v: Seq<nat>) -> nat
    decreases v.len(),
{
    if v.len() == 0 {
        0
    } else {
        total(v.drop_last()) + v.last()
    }
}

/// Both players of every fixture of `fs` sit among `ms`.
pub open spec fn seated(fs: Seq<Fixture>, ms: Seq<Seq<u8>>) -> bool {
    forall|i: int|
        #![trigger fs[i]]
        0 <= i < fs.len() ==> sits(ms, fs[i].pair.0) && sits(ms, fs[i].pair.1)
}

/// Every player of a group sits in its roster.
pub proof fn lemma_roster_seats(fs: Seq<Fixture>)
    ensures
        seated(fs, roster(fs)),
{
    lemma_roster(fs);
    let ms = roster(fs);
    assert forall|i: int| #![trigger fs[i]] 0 <= i < fs.len() implies sits(ms, fs[i].pair.0)
        && sits(ms, fs[i].pair.1) by {
        assert(plays(fs, fs[i].pair.0));
        assert(plays(fs, fs[i].pair.1));
        lemma_seat_of_member(ms, fs[i].pair.0);
        lemma_seat_of_member(ms, fs[i].pair.1);
        lemma_seat(ms, fs[i].pair.0);
        lemma_seat(ms, fs[i].pair.1);
    }
}

/// Where all fixtures are seated, the first `i` of them are.
pub proof fn lemma_seated_prefix(fs: Seq<Fixture>, ms: Seq<Seq<u8>>, i: int)
    requires
        seated(fs, ms),
        0 <= i <= fs.len(),
    ensures
        seated(fs.take(i), ms),
{
    let upto = fs.take(i);
    assert forall|j: int| #![trigger upto[j]] 0 <= j < upto.len() implies sits(
        ms,
        upto[j].pair.0,
    ) && sits(ms, upto[j].pair.1) by {
        assert(upto[j] == fs[j]);
    }
}

/// A win more for a seated player is a win more in total.
pub proof fn lemma_total_of_bump(v: Seq<nat>, k: int)
    requires
        0 <= k < v.len(),
    ensures
        total(bump(v, k)) == total(v) + 1,
    decreases v.len(),
{
    let w = bump(v, k);
    if k == v.len() - 1 {
        assert(w.drop_last() =~= v.drop_last());
    } else {
        lemma_total_of_bump(v.drop_last(), k);
        assert(w.drop_last() =~= bump(v.drop_last(), k));
    }
}

/// No single count exceeds the sum of all counts.
pub proof fn lemma_count_within_total(v: Seq<nat>, k: int)
    requires
        0 <= k < v.len(),
    ensures
        v[k] <= total(v),
    decreases v.len(),
{
    if k < v.len() - 1 {
        lemma_count_within_total(v.drop_last(), k);
    }
}

proof fn lemma_total_of_zeros(n: nat)
    ensures
        total(zeros(n)) == 0,
    decreases n,
{
    if n > 0 {
        lemma_total_of_zeros((n - 1) as nat);
        assert(zeros(n).drop_last() =~= zeros((n - 1) as nat));
    }
}

/// The number of vectors doubles with every pending fixture.
pub proof fn lemma_branches_len(fs: Seq<Fixture>, ms: Seq<Seq<u8>>)
    ensures
        branches(fs, ms).len() == pow2(pending(fs)),
    decreases fs.len(),
{
    if fs.len() == 0 {
        lemma2_to64();
    } else {
        lemma_branches_len(fs.drop_last(), ms);
        if fs.last().standing == Standing::Tbd {
            lemma_pow2_unfold(pending(fs));
        }
    }
}

/// Every vector has one count for each player and sums to the number of
/// fixtures.
pub proof fn lemma_branches_total(fs: Seq<Fixture>, ms: Seq<Seq<u8>>)
    requires
        seated(fs, ms),
    ensures
        forall|j: int|
            #![trigger branches(fs, ms)[j]]
            0 <= j < branches(fs, ms).len() ==> branches(fs, ms)[j].len() == ms.len() && total(
                branches(fs, ms)[j],
            ) == fs.len(),
    decreases fs.len(),
{
    let bs = branches(fs, ms);
    if fs.len() == 0 {
        lemma_total_of_zeros(ms.len());
    } else {
        let init = fs.drop_last();
        let prior = branches(init, ms);
        lemma_seated_prefix(fs, ms, fs.len() - 1);
        assert(fs.take(fs.len() - 1) =~= init);
        lemma_branches_total(init, ms);
        let first = seat(ms, fs.last().pair.0);
        let second = seat(ms, fs.last().pair.1);
        assert(fs[fs.len() - 1] == fs.last());
        assert forall|j: int| #![trigger bs[j]] 0 <= j < bs.len() implies bs[j].len() == ms.len()
            && total(bs[j]) == fs.len() by {
            let src = if j < prior.len() {
                j
            } else {
                j - prior.len()
            };
            assert(prior[src].len() == ms.len());
            lemma_total_of_bump(prior[src], first);
            lemma_total_of_bump(prior[src], second);
        }
    }
}

} // verus!

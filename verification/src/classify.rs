//! Whether a tie of exactly three players is guaranteed, possible or
//! impossible among the score vectors that a group can end on.

use crate::enumerate::{scores_of, ScoreVector};
use crate::members::roster;
use crate::record::Fixture;
use crate::scores::reachable_scores;
use vstd::prelude::*;

verus! {

/// The number of players of `v` whose win count is `c`.
pub open spec fn sharers(v: Seq<nat>, c: nat) -> nat
    decreases v.len(),
{
    if v.len() == 0 {
        0
    } else if v.last() == c {
        sharers(v.drop_last(), c) + 1
    } else {
        sharers(v.drop_last(), c)
    }
}

/// Some win count below `players` is shared by exactly three players of `v`.
/// A count that four or more players share does not make a tie.
pub open spec fn has_three_way_tie(v: Seq<nat>, players: nat) -> bool {
    exists|c: nat| c < players && #[trigger] sharers(v, c) == 3
}

/// What can be said of a three-way tie once every match is played.
#[derive(Debug, Clone, Copy, PartialEq, Eq, Structural)]
pub enum Classification {
    /// Every way in which the matches can go ends in a three-way tie.
    Guaranteed,
    /// Some way ends in a three-way tie, and some other way does not.
    Possible,
    /// No way ends in a three-way tie.
    Impossible,
}

/// At least one vector of `vs` has a three-way tie.
pub open spec fn some_tie(vs: Seq<Seq<nat>>, players: nat) -> bool {
    exists|i: int| 0 <= i < vs.len() && has_three_way_tie(#[trigger] vs[i], players)
}

/// Every vector of `vs` has a three-way tie.
pub open spec fn all_tie(vs: Seq<Seq<nat>>, players: nat) -> bool {
    forall|i: int| 0 <= i < vs.len() ==> has_three_way_tie(#[trigger] vs[i], players)
}

/// The classification of the score vectors `vs` of a group of `players`
/// players. Without any vector there is no tie.
pub open spec fn classification(vs: Seq<Seq<nat>>, players: nat) -> Classification {
    if !some_tie(vs, players) {
        Classification::Impossible
    } else if all_tie(vs, players) {
        Classification::Guaranteed
    } else {
        Classification::Possible
    }
}

/// The classification of a group with the fixtures `fs`.
pub open spec fn group_classification(fs: Seq<Fixture>) -> Classification {
    classification(reachable_scores(fs), roster(fs).len())
}

/// The number of players of `v` whose win count is `c`.
pub fn count_sharers(v: &ScoreVector, c: usize) -> (n: usize)
    ensures
        n == sharers(v@, c as nat),
{
    let mut n: usize = 0;
    let mut i: usize = 0;
    while i < v.len()
        invariant
            i <= v@.len(),
            n == sharers(v@.take(i as int), c as nat),
            n <= i,
        decreases v@.len() - i,
    {
        proof {
            assert(v@.take(i + 1).drop_last() =~= v@.take(i as int));
        }
        if v.wins_at(i) == c {
            n += 1;
        }
        i += 1;
    }
    assert(v@.take(i as int) =~= v@);
    n
}

/// Whether some win count below `players` is shared by exactly three players
/// of `v`.
pub fn three_way_tie(v: &ScoreVector, players: usize) -> (tie: bool)
    ensures
        tie == has_three_way_tie(v@, players as nat),
{
    let mut c: usize = 0;
    while c < players
        invariant
            c <= players,
            forall|d: nat| d < c ==> #[trigger] sharers(v@, d) != 3,
        decreases players - c,
    {
        if count_sharers(v, c) == 3 {
            return true;
        }
        c += 1;
    }
    false
}

/// Classifies the score vectors of a group of `player_count` players: a
/// three-way tie is impossible if no vector has one, guaranteed if every
/// vector has one, and possible otherwise. Every vector is looked at.
pub fn classify(vectors: &Vec<ScoreVector>, player_count: usize) -> (class: Classification)
    ensures
        class == classification(scores_of(vectors@), player_count as nat),
{
    let ghost vs = scores_of(vectors@);
    let ghost players = player_count as nat;
    let mut any = false;
    let mut every = true;
    let mut i: usize = 0;
    while i < vectors.len()
        invariant
            i <= vectors@.len(),
            vs == scores_of(vectors@),
            players == player_count as nat,
            any == some_tie(vs.take(i as int), players),
            every == all_tie(vs.take(i as int), players),
        decreases vectors@.len() - i,
    {
        let tie = three_way_tie(&vectors[i], player_count);
        proof {
            let upto = vs.take(i as int);
            let next = vs.take(i + 1);
            assert(next[i as int] == vs[i as int]);
            assert(vs[i as int] == vectors@[i as int]@);
            if some_tie(upto, players) {
                let j = choose|j: int| 0 <= j < upto.len() && has_three_way_tie(upto[j], players);
                assert(next[j] == upto[j]);
            }
            if some_tie(next, players) && !tie {
                let j = choose|j: int| 0 <= j < next.len() && has_three_way_tie(next[j], players);
                assert(upto[j] == next[j]);
            }
            if all_tie(upto, players) && tie {
                assert forall|j: int| 0 <= j < next.len() implies has_three_way_tie(
                    #[trigger] next[j],
                    players,
                ) by {
                    if j < i {
                        assert(next[j] == upto[j]);
                    }
                }
            }
            if all_tie(next, players) {
                assert forall|j: int| 0 <= j < upto.len() implies has_three_way_tie(
                    #[trigger] upto[j],
                    players,
                ) by {
                    assert(upto[j] == next[j]);
                }
            }
        }
        if tie {
            any = true;
        } else {
            every = false;
        }
        i += 1;
    }
    assert(vs.take(i as int) =~= vs);
    if !any {
        Classification::Impossible
    } else if every {
        Classification::Guaranteed
    } else {
        Classification::Possible
    }
}

} // verus!

//! The laws of enumeration and classification.

use crate::classify::{
    all_tie, classification, group_classification, has_three_way_tie, sharers, some_tie,
    Classification,
};
use crate::members::{
    ascending, lemma_roster, lemma_seat, lemma_seat_of_member, roster, seat, sits,
};
use crate::record::{Fixture, Standing};
use crate::scores::{
    branches, bump, bump_each, decided, lemma_branches_len, lemma_branches_total,
    lemma_roster_seats, lemma_seated_prefix, pending, reachable_scores, seated, total, zeros,
};
use vstd::arithmetic::power2::{lemma2_to64, lemma_pow2_unfold, pow2};
use vstd::multiset::Multiset;
use vstd::prelude::*;
use vstd::seq_lib::{lemma_multiset_commutative, to_multiset_build};

verus! {

/// `fs` with the fixture at `i` standing as `standing`.
pub open spec fn resolved(fs: Seq<Fixture>, i: int, standing: Standing) -> Seq<Fixture> {
    fs.update(i, Fixture { pair: fs[i].pair, standing })
}

/// The winner of a fixture, if it is decided.
pub open spec fn winner(f: Fixture) -> Option<Seq<u8>> {
    match f.standing {
        Standing::Win => Some(f.pair.0),
        Standing::Loss => Some(f.pair.1),
        Standing::Tbd => None,
    }
}

/// The number of fixtures of `fs` that the player `id` has won.
pub open spec fn victories(fs: Seq<Fixture>, id: Seq<u8>) -> nat
    decreases fs.len(),
{
    if fs.len() == 0 {
        0
    } else if winner(fs.last()) == Some(id) {
        victories(fs.drop_last(), id) + 1
    } else {
        victories(fs.drop_last(), id)
    }
}

/// The final table of the fixtures `fs` for the players `ms`: for each
/// player the number of fixtures won.
pub open spec fn table(fs: Seq<Fixture>, ms: Seq<Seq<u8>>) -> Seq<nat> {
    Seq::new(ms.len(), |k: int| victories(fs, ms[k]))
}

/// The player at `k` has at least one win in every vector of `vs`.
pub open spec fn wins_in_each(vs: Seq<Seq<nat>>, k: int) -> bool {
    forall|j: int| 0 <= j < vs.len() ==> (#[trigger] vs[j])[k] >= 1
}

/// `gs` is one way in which the fixtures `fs` can end: the same pairs in the
/// same order, every fixture decided, and those of `fs` that are decided
/// standing as they stand in `fs`.
pub open spec fn completes(gs: Seq<Fixture>, fs: Seq<Fixture>) -> bool {
    &&& gs.len() == fs.len()
    &&& forall|i: int|
        #![trigger gs[i]]
        0 <= i < fs.len() ==> {
            &&& gs[i].pair == fs[i].pair
            &&& gs[i].standing != Standing::Tbd
            &&& fs[i].standing != Standing::Tbd ==> gs[i].standing == fs[i].standing
        }
}

/// A group with `k` pending fixtures, whatever the number of decided ones,
/// ends on exactly two to the `k` score vectors, equal ones counted as often
/// as they occur.
pub proof fn law_branch_count(fs: Seq<Fixture>)
    ensures
        reachable_scores(fs).len() == pow2(pending(fs)),
{
    lemma_branches_len(fs, roster(fs));
}

/// Decided and pending fixtures together are all fixtures.
proof fn lemma_decided_and_pending(fs: Seq<Fixture>)
    ensures
        decided(fs) + pending(fs) == fs.len(),
    decreases fs.len(),
{
    if fs.len() > 0 {
        lemma_decided_and_pending(fs.drop_last());
    }
}

/// In every score vector that a group can end on, the win counts of all
/// players add up to the number of decided fixtures plus the number of
/// pending ones, for every match gives one win to one player.
pub proof fn law_score_conservation(fs: Seq<Fixture>, j: int)
    requires
        0 <= j < reachable_scores(fs).len(),
    ensures
        reachable_scores(fs)[j].len() == roster(fs).len(),
        total(reachable_scores(fs)[j]) == decided(fs) + pending(fs),
{
    lemma_roster_seats(fs);
    lemma_branches_total(fs, roster(fs));
    lemma_decided_and_pending(fs);
}

/// One more decided fixture is one more win in the table for its winner.
proof fn lemma_table_push(gs: Seq<Fixture>, f: Fixture, ms: Seq<Seq<u8>>)
    requires
        ascending(ms),
        winner(f) matches Some(id) && sits(ms, id),
    ensures
        table(gs.push(f), ms) == bump(table(gs, ms), seat(ms, winner(f).unwrap())),
{
    let id = winner(f).unwrap();
    lemma_seat(ms, id);
    lemma_seat_of_member(ms, id);
    assert(gs.push(f).drop_last() =~= gs);
    assert(table(gs.push(f), ms) =~= bump(table(gs, ms), seat(ms, id)));
}

/// The vector at `j` is the table of some way in which `fs` can end.
proof fn lemma_reached(fs: Seq<Fixture>, ms: Seq<Seq<u8>>, j: int) -> (gs: Seq<Fixture>)
    requires
        ascending(ms),
        seated(fs, ms),
        0 <= j < branches(fs, ms).len(),
    ensures
        completes(gs, fs),
        branches(fs, ms)[j] == table(gs, ms),
    decreases fs.len(),
{
    if fs.len() == 0 {
        let gs = Seq::<Fixture>::empty();
        assert(table(gs, ms) =~= zeros(ms.len()));
        gs
    } else {
        let init = fs.drop_last();
        let last = fs.last();
        let prior = branches(init, ms);
        assert(fs[fs.len() - 1] == last);
        lemma_seated_prefix(fs, ms, fs.len() - 1);
        assert(fs.take(fs.len() - 1) =~= init);
        let from = if j < prior.len() {
            j
        } else {
            j - prior.len()
        };
        let standing = match last.standing {
            Standing::Tbd => if j < prior.len() {
                Standing::Win
            } else {
                Standing::Loss
            },
            as_it_stands => as_it_stands,
        };
        let before = lemma_reached(init, ms, from);
        let ended = Fixture { pair: last.pair, standing };
        let gs = before.push(ended);
        lemma_table_push(before, ended, ms);
        assert forall|i: int| #![trigger gs[i]] 0 <= i < fs.len() implies {
            &&& gs[i].pair == fs[i].pair
            &&& gs[i].standing != Standing::Tbd
            &&& fs[i].standing != Standing::Tbd ==> gs[i].standing == fs[i].standing
        } by {
            if i < init.len() {
                assert(gs[i] == before[i]);
                assert(fs[i] == init[i]);
            }
        }
        gs
    }
}

/// The table of a way in which `fs` can end is one of the vectors.
proof fn lemma_enumerated(fs: Seq<Fixture>, ms: Seq<Seq<u8>>, gs: Seq<Fixture>) -> (j: int)
    requires
        ascending(ms),
        seated(fs, ms),
        completes(gs, fs),
    ensures
        0 <= j < branches(fs, ms).len(),
        branches(fs, ms)[j] == table(gs, ms),
    decreases fs.len(),
{
    if fs.len() == 0 {
        assert(table(gs, ms) =~= zeros(ms.len()));
        0
    } else {
        let init = fs.drop_last();
        let last = fs.last();
        let prior = branches(init, ms);
        let before = gs.drop_last();
        let ended = gs.last();
        assert(fs[fs.len() - 1] == last);
        assert(gs[gs.len() - 1] == ended);
        assert(gs =~= before.push(ended));
        lemma_seated_prefix(fs, ms, fs.len() - 1);
        assert(fs.take(fs.len() - 1) =~= init);
        assert forall|i: int| #![trigger before[i]] 0 <= i < init.len() implies {
            &&& before[i].pair == init[i].pair
            &&& before[i].standing != Standing::Tbd
            &&& init[i].standing != Standing::Tbd ==> before[i].standing == init[i].standing
        } by {
            assert(before[i] == gs[i]);
            assert(init[i] == fs[i]);
        }
        let from = lemma_enumerated(init, ms, before);
        lemma_table_push(before, ended, ms);
        if last.standing == Standing::Tbd && ended.standing == Standing::Loss {
            from + prior.len()
        } else {
            from
        }
    }
}

/// Every score vector of a group is the final table of some way in which
/// its pending fixtures can go: each player's count is the number of
/// fixtures that the player has won when all are decided that way.
pub proof fn law_every_vector_is_reached(fs: Seq<Fixture>, j: int)
    requires
        0 <= j < reachable_scores(fs).len(),
    ensures
        exists|gs: Seq<Fixture>| #[trigger]
            completes(gs, fs) && reachable_scores(fs)[j] == table(gs, roster(fs)),
{
    lemma_roster(fs);
    lemma_roster_seats(fs);
    let gs = lemma_reached(fs, roster(fs), j);
    assert(completes(gs, fs));
}

/// Every way in which the pending fixtures of a group can go is enumerated:
/// its final table is one of the score vectors.
pub proof fn law_every_ending_is_enumerated(fs: Seq<Fixture>, gs: Seq<Fixture>)
    requires
        completes(gs, fs),
    ensures
        exists|j: int|
            0 <= j < reachable_scores(fs).len() && #[trigger] reachable_scores(fs)[j] == table(
                gs,
                roster(fs),
            ),
{
    lemma_roster(fs);
    lemma_roster_seats(fs);
    let j = lemma_enumerated(fs, roster(fs), gs);
    assert(reachable_scores(fs)[j] == table(gs, roster(fs)));
}

/// `w` with one win less for the player at `k`.
spec fn unbump(w: Seq<nat>, k: int) -> Seq<nat> {
    w.update(k, (w[k] - 1) as nat)
}

proof fn lemma_bump_inverse(v: Seq<nat>, w: Seq<nat>, k: int)
    requires
        0 <= k < v.len(),
    ensures
        bump(v, k) == w <==> (w.len() == v.len() && w[k] >= 1 && v == unbump(w, k)),
{
    if bump(v, k) == w {
        assert(v =~= unbump(w, k));
    }
    if w.len() == v.len() && w[k] >= 1 && v == unbump(w, k) {
        assert(bump(v, k) =~= w);
    }
}

/// A vector occurs among the bumped ones as often as the vector it came from
/// occurs among the given ones.
proof fn lemma_bump_each_count(vs: Seq<Seq<nat>>, n: nat, k: int, w: Seq<nat>)
    requires
        forall|i: int| 0 <= i < vs.len() ==> (#[trigger] vs[i]).len() == n,
        0 <= k < n,
    ensures
        bump_each(vs, k).to_multiset().count(w) == if w.len() == n && w[k] >= 1 {
            vs.to_multiset().count(unbump(w, k))
        } else {
            0
        },
    decreases vs.len(),
{
    broadcast use vstd::multiset::group_multiset_axioms;

    if vs.len() == 0 {
        vs.to_multiset_ensures();
        bump_each(vs, k).to_multiset_ensures();
        assert(vs.to_multiset().len() == 0);
        assert(bump_each(vs, k).to_multiset().len() == 0);
        assert(vs.to_multiset() =~= Multiset::empty());
        assert(bump_each(vs, k).to_multiset() =~= Multiset::empty());
    } else {
        let init = vs.drop_last();
        let last = vs.last();
        lemma_bump_each_count(init, n, k, w);
        assert(bump_each(vs, k) =~= bump_each(init, k).push(bump(last, k)));
        assert(vs =~= init.push(last));
        to_multiset_build(bump_each(init, k), bump(last, k));
        to_multiset_build(init, last);
        lemma_bump_inverse(last, w, k);
    }
}

/// Where the given vectors split into two lots, the bumped ones split into
/// the two bumped lots.
proof fn lemma_bump_each_splits(
    p: Seq<Seq<nat>>,
    a: Seq<Seq<nat>>,
    b: Seq<Seq<nat>>,
    n: nat,
    k: int,
)
    requires
        forall|i: int| 0 <= i < p.len() ==> (#[trigger] p[i]).len() == n,
        forall|i: int| 0 <= i < a.len() ==> (#[trigger] a[i]).len() == n,
        forall|i: int| 0 <= i < b.len() ==> (#[trigger] b[i]).len() == n,
        0 <= k < n,
        p.to_multiset() == a.to_multiset().add(b.to_multiset()),
    ensures
        bump_each(p, k).to_multiset() == bump_each(a, k).to_multiset().add(
            bump_each(b, k).to_multiset(),
        ),
{
    broadcast use vstd::multiset::group_multiset_axioms;

    let lhs = bump_each(p, k).to_multiset();
    let rhs = bump_each(a, k).to_multiset().add(bump_each(b, k).to_multiset());
    assert forall|w: Seq<nat>| lhs.count(w) == rhs.count(w) by {
        lemma_bump_each_count(p, n, k, w);
        lemma_bump_each_count(a, n, k, w);
        lemma_bump_each_count(b, n, k, w);
    }
    assert(lhs =~= rhs);
}

/// The roster does not depend on how the fixtures stand.
proof fn lemma_roster_of_resolved(fs: Seq<Fixture>, i: int, standing: Standing)
    requires
        0 <= i < fs.len(),
    ensures
        roster(resolved(fs, i, standing)) == roster(fs),
    decreases fs.len(),
{
    let gs = resolved(fs, i, standing);
    if i == fs.len() - 1 {
        assert(gs.drop_last() =~= fs.drop_last());
    } else {
        lemma_roster_of_resolved(fs.drop_last(), i, standing);
        assert(gs.drop_last() =~= resolved(fs.drop_last(), i, standing));
    }
}

proof fn lemma_pending_of_resolved(fs: Seq<Fixture>, i: int, standing: Standing)
    requires
        0 <= i < fs.len(),
        fs[i].standing == Standing::Tbd,
        standing != Standing::Tbd,
    ensures
        pending(resolved(fs, i, standing)) + 1 == pending(fs),
    decreases fs.len(),
{
    let gs = resolved(fs, i, standing);
    if i == fs.len() - 1 {
        assert(gs.drop_last() =~= fs.drop_last());
    } else {
        lemma_pending_of_resolved(fs.drop_last(), i, standing);
        assert(gs.drop_last() =~= resolved(fs.drop_last(), i, standing));
    }
}

/// Where all fixtures are seated, they are however one of them stands.
proof fn lemma_seated_resolved(fs: Seq<Fixture>, ms: Seq<Seq<u8>>, i: int, standing: Standing)
    requires
        seated(fs, ms),
        0 <= i < fs.len(),
    ensures
        seated(resolved(fs, i, standing), ms),
{
    let gs = resolved(fs, i, standing);
    assert forall|j: int| #![trigger gs[j]] 0 <= j < gs.len() implies sits(ms, gs[j].pair.0)
        && sits(ms, gs[j].pair.1) by {
        assert(gs[j].pair == fs[j].pair);
    }
}

/// Resolving one pending fixture either way splits the vectors of `fs` into
/// those of the two resolutions.
proof fn lemma_branches_split(fs: Seq<Fixture>, ms: Seq<Seq<u8>>, i: int)
    requires
        seated(fs, ms),
        0 <= i < fs.len(),
        fs[i].standing == Standing::Tbd,
    ensures
        branches(fs, ms).to_multiset() == branches(
            resolved(fs, i, Standing::Win),
            ms,
        ).to_multiset().add(branches(resolved(fs, i, Standing::Loss), ms).to_multiset()),
    decreases fs.len(),
{
    broadcast use vstd::multiset::group_multiset_axioms;

    let won = resolved(fs, i, Standing::Win);
    let lost = resolved(fs, i, Standing::Loss);
    let init = fs.drop_last();
    let first = seat(ms, fs.last().pair.0);
    let second = seat(ms, fs.last().pair.1);
    assert(fs[fs.len() - 1] == fs.last());
    if i == fs.len() - 1 {
        assert(won.drop_last() =~= init);
        assert(lost.drop_last() =~= init);
        let prior = branches(init, ms);
        lemma_multiset_commutative(bump_each(prior, first), bump_each(prior, second));
    } else {
        lemma_seated_prefix(fs, ms, fs.len() - 1);
        assert(fs.take(fs.len() - 1) =~= init);
        let init_won = resolved(init, i, Standing::Win);
        let init_lost = resolved(init, i, Standing::Loss);
        assert(won.drop_last() =~= init_won);
        assert(lost.drop_last() =~= init_lost);
        assert(won.last() == fs.last());
        assert(lost.last() == fs.last());
        lemma_branches_split(init, ms, i);
        let p = branches(init, ms);
        let a = branches(init_won, ms);
        let b = branches(init_lost, ms);
        lemma_seated_resolved(init, ms, i, Standing::Win);
        lemma_seated_resolved(init, ms, i, Standing::Loss);
        lemma_branches_total(init, ms);
        lemma_branches_total(init_won, ms);
        lemma_branches_total(init_lost, ms);
        lemma_bump_each_splits(p, a, b, ms.len(), first);
        lemma_bump_each_splits(p, a, b, ms.len(), second);
        if fs.last().standing == Standing::Tbd {
            lemma_multiset_commutative(bump_each(p, first), bump_each(p, second));
            lemma_multiset_commutative(bump_each(a, first), bump_each(a, second));
            lemma_multiset_commutative(bump_each(b, first), bump_each(b, second));
            assert(branches(fs, ms).to_multiset() =~= branches(won, ms).to_multiset().add(
                branches(lost, ms).to_multiset(),
            ));
        }
    }
}

/// The winner of a fixture has at least that one victory.
proof fn lemma_victories_of_winner(gs: Seq<Fixture>, i: int)
    requires
        0 <= i < gs.len(),
        winner(gs[i]) is Some,
    ensures
        victories(gs, winner(gs[i]).unwrap()) >= 1,
    decreases gs.len(),
{
    if i < gs.len() - 1 {
        lemma_victories_of_winner(gs.drop_last(), i);
    }
}

/// In the table of a way in which `fs` can end, the winner of a fixture
/// that `fs` holds decided has a win.
proof fn lemma_table_of_winner(
    fs: Seq<Fixture>,
    gs: Seq<Fixture>,
    ms: Seq<Seq<u8>>,
    i: int,
    k: int,
)
    requires
        completes(gs, fs),
        0 <= i < fs.len(),
        winner(fs[i]) is Some,
        0 <= k < ms.len(),
        ms[k] == winner(fs[i]).unwrap(),
    ensures
        table(gs, ms)[k] >= 1,
{
    assert(gs[i].pair == fs[i].pair && gs[i].standing == fs[i].standing);
    lemma_victories_of_winner(gs, i);
}

/// In every vector of a group the winner of a decided fixture has a win.
proof fn lemma_winner_has_a_win(fs: Seq<Fixture>, i: int, j: int)
    requires
        0 <= i < fs.len(),
        winner(fs[i]) is Some,
        0 <= j < reachable_scores(fs).len(),
    ensures
        reachable_scores(fs)[j][seat(roster(fs), winner(fs[i]).unwrap())] >= 1,
{
    let ms = roster(fs);
    lemma_roster_seats(fs);
    assert(sits(ms, fs[i].pair.0) && sits(ms, fs[i].pair.1));
    law_every_vector_is_reached(fs, j);
    let gs = choose|gs: Seq<Fixture>| #[trigger]
        completes(gs, fs) && reachable_scores(fs)[j] == table(gs, ms);
    lemma_table_of_winner(fs, gs, ms, i, seat(ms, winner(fs[i]).unwrap()));
}

/// Deciding one pending fixture, either way, splits the score vectors of the
/// group into those of the two decided groups. Each vector occurs in the
/// undecided group as often as in the two decided ones together, each
/// decided group has half of the vectors, and in each of its vectors the
/// player for whom the fixture was decided has that win.
pub proof fn law_resolution_partitions(fs: Seq<Fixture>, i: int)
    requires
        0 <= i < fs.len(),
        fs[i].standing == Standing::Tbd,
    ensures
        reachable_scores(fs).to_multiset() == reachable_scores(
            resolved(fs, i, Standing::Win),
        ).to_multiset().add(reachable_scores(resolved(fs, i, Standing::Loss)).to_multiset()),
        2 * reachable_scores(resolved(fs, i, Standing::Win)).len() == reachable_scores(fs).len(),
        2 * reachable_scores(resolved(fs, i, Standing::Loss)).len() == reachable_scores(fs).len(),
        wins_in_each(
            reachable_scores(resolved(fs, i, Standing::Win)),
            seat(roster(fs), fs[i].pair.0),
        ),
        wins_in_each(
            reachable_scores(resolved(fs, i, Standing::Loss)),
            seat(roster(fs), fs[i].pair.1),
        ),
{
    let won = resolved(fs, i, Standing::Win);
    let lost = resolved(fs, i, Standing::Loss);
    let first = seat(roster(fs), fs[i].pair.0);
    let second = seat(roster(fs), fs[i].pair.1);
    lemma_roster_of_resolved(fs, i, Standing::Win);
    lemma_roster_of_resolved(fs, i, Standing::Loss);
    assert forall|j: int| 0 <= j < reachable_scores(won).len() implies (#[trigger] reachable_scores(
        won,
    )[j])[first] >= 1 by {
        lemma_winner_has_a_win(won, i, j);
    }
    assert forall|j: int| 0 <= j < reachable_scores(lost).len() implies (
    #[trigger] reachable_scores(lost)[j])[second] >= 1 by {
        lemma_winner_has_a_win(lost, i, j);
    }
    lemma_roster_seats(fs);
    lemma_branches_split(fs, roster(fs), i);
    lemma_pending_of_resolved(fs, i, Standing::Win);
    lemma_pending_of_resolved(fs, i, Standing::Loss);
    law_branch_count(fs);
    law_branch_count(resolved(fs, i, Standing::Win));
    law_branch_count(resolved(fs, i, Standing::Loss));
    lemma_pow2_unfold(pending(fs));
}

/// Classification is one tag, and each tag says when it comes: impossible
/// when no vector has a tie, guaranteed when there is a tie and every vector
/// has one, possible when there is a tie and some vector has none. So what is
/// guaranteed is never reported as merely possible.
pub proof fn law_one_tag(vs: Seq<Seq<nat>>, players: nat)
    ensures
        classification(vs, players) == Classification::Impossible <==> !some_tie(vs, players),
        classification(vs, players) == Classification::Guaranteed <==> some_tie(vs, players)
            && all_tie(vs, players),
        classification(vs, players) == Classification::Possible <==> some_tie(vs, players)
            && !all_tie(vs, players),
{
}

/// With a single score vector a tie that is possible is guaranteed.
pub proof fn law_single_vector(vs: Seq<Seq<nat>>, players: nat)
    requires
        vs.len() == 1,
    ensures
        classification(vs, players) != Classification::Possible,
        some_tie(vs, players) <==> all_tie(vs, players),
{
    if some_tie(vs, players) {
        let j = choose|j: int| 0 <= j < vs.len() && has_three_way_tie(vs[j], players);
        assert(j == 0);
    }
    if all_tie(vs, players) {
        assert(has_three_way_tie(vs[0], players));
    }
}

/// A group without pending fixtures ends on one score vector, so its tie is
/// guaranteed or impossible, never merely possible.
pub proof fn law_decided_group(fs: Seq<Fixture>)
    requires
        pending(fs) == 0,
    ensures
        reachable_scores(fs).len() == 1,
        group_classification(fs) != Classification::Possible,
{
    law_branch_count(fs);
    lemma2_to64();
    law_single_vector(reachable_scores(fs), roster(fs).len());
}

/// Some way in which the fixtures `fs` can end has a three-way tie in its
/// final table.
pub open spec fn some_ending_ties(fs: Seq<Fixture>) -> bool {
    exists|gs: Seq<Fixture>| #[trigger]
        completes(gs, fs) && has_three_way_tie(table(gs, roster(fs)), roster(fs).len())
}

/// Every way in which the fixtures `fs` can end has a three-way tie in its
/// final table.
pub open spec fn every_ending_ties(fs: Seq<Fixture>) -> bool {
    forall|gs: Seq<Fixture>| #[trigger]
        completes(gs, fs) ==> has_three_way_tie(table(gs, roster(fs)), roster(fs).len())
}

/// The classification of a group speaks of all ways in which its pending
/// fixtures can go: a tie is impossible if no way ends in one, guaranteed if
/// every way does, and possible otherwise.
pub proof fn law_classification_of_endings(fs: Seq<Fixture>)
    ensures
        group_classification(fs) == if !some_ending_ties(fs) {
            Classification::Impossible
        } else if every_ending_ties(fs) {
            Classification::Guaranteed
        } else {
            Classification::Possible
        },
{
    let ms = roster(fs);
    let vs = reachable_scores(fs);
    if some_tie(vs, ms.len()) {
        let j = choose|j: int| 0 <= j < vs.len() && has_three_way_tie(#[trigger] vs[j], ms.len());
        law_every_vector_is_reached(fs, j);
    }
    if some_ending_ties(fs) {
        let gs = choose|gs: Seq<Fixture>| #[trigger]
            completes(gs, fs) && has_three_way_tie(table(gs, ms), ms.len());
        law_every_ending_is_enumerated(fs, gs);
    }
    if all_tie(vs, ms.len()) {
        assert forall|gs: Seq<Fixture>| #[trigger] completes(gs, fs) implies has_three_way_tie(
            table(gs, ms),
            ms.len(),
        ) by {
            law_every_ending_is_enumerated(fs, gs);
        }
    }
    if every_ending_ties(fs) {
        assert forall|j: int| 0 <= j < vs.len() implies has_three_way_tie(
            #[trigger] vs[j],
            ms.len(),
        ) by {
            law_every_vector_is_reached(fs, j);
        }
    }
}

/// A count that more than three players share is no three-way tie. A vector
/// with such a count has a tie only through another count, one that exactly
/// three players share.
pub proof fn law_exact_three(v: Seq<nat>, players: nat, c: nat)
    requires
        sharers(v, c) > 3,
    ensures
        has_three_way_tie(v, players) <==> exists|d: nat|
            d < players && d != c && #[trigger] sharers(v, d) == 3,
{
}

/// Players who share one count do not share another.
proof fn lemma_sharers_disjoint(v: Seq<nat>, c: nat, d: nat)
    requires
        c != d,
    ensures
        sharers(v, c) + sharers(v, d) <= v.len(),
    decreases v.len(),
{
    if v.len() > 0 {
        lemma_sharers_disjoint(v.drop_last(), c, d);
    }
}

/// Among fewer than seven players, four or more on one count leave no room
/// for three on another: there is no three-way tie.
pub proof fn law_four_share_one_count(v: Seq<nat>, players: nat, c: nat)
    requires
        sharers(v, c) > 3,
        v.len() < 7,
    ensures
        !has_three_way_tie(v, players),
{
    assert forall|d: nat| d < players implies #[trigger] sharers(v, d) != 3 by {
        if d != c {
            lemma_sharers_disjoint(v, c, d);
        }
    }
}

} // verus!

use startgg_3way_ties::classify::{classify, Classification};
use startgg_3way_ties::enumerate::{enumerate, score_of};
use startgg_3way_ties::ids::{IdPair, ID};
use startgg_3way_ties::members::members;
use startgg_3way_ties::names::NameBook;
use startgg_3way_ties::record::{GroupRecord, MatchOutcome, Standing};
use startgg_3way_ties::report::{analyze, render_group, report};
use startgg_3way_ties::store::MatchResultStore;

fn id(name: &str) -> ID {
    ID(name.to_string())
}

fn pair(a: &str, b: &str) -> IdPair {
    IdPair::new(id(a), id(b))
}

fn beats(winner: &str) -> MatchOutcome {
    MatchOutcome::Decided(id(winner))
}

fn wins_of(record: &GroupRecord) -> Vec<Vec<usize>> {
    enumerate(record).iter().map(|v| v.wins().clone()).collect()
}

#[test]
fn perfect_cycle_of_three_is_guaranteed() {
    let mut store = MatchResultStore::new();
    store.ingest(1, pair("A", "B"), beats("A"));
    store.ingest(1, pair("B", "C"), beats("B"));
    store.ingest(1, pair("C", "A"), beats("C"));
    let record = store.finalize(1);
    let players = members(&record);
    assert_eq!(players, vec![id("A"), id("B"), id("C")]);
    assert_eq!(wins_of(&record), vec![vec![1, 1, 1]]);
    let vectors = enumerate(&record);
    assert_eq!(classify(&vectors, players.len()), Classification::Guaranteed);
    assert_eq!(analyze(&record).classification, Classification::Guaranteed);
}

#[test]
fn one_player_ahead_of_two_is_impossible() {
    let mut store = MatchResultStore::new();
    store.ingest(1, pair("A", "B"), beats("A"));
    store.ingest(1, pair("A", "C"), beats("A"));
    store.ingest(1, pair("B", "C"), MatchOutcome::Pending);
    let record = store.finalize(1);
    assert_eq!(wins_of(&record), vec![vec![2, 1, 0], vec![2, 0, 1]]);
    let analysis = analyze(&record);
    assert_eq!(analysis.members, vec![id("A"), id("B"), id("C")]);
    assert_eq!(analysis.vectors.len(), 2);
    assert_eq!(analysis.classification, Classification::Impossible);
}

#[test]
fn four_players_with_open_matches_are_possible() {
    let mut store = MatchResultStore::new();
    store.ingest(4, pair("A", "D"), beats("A"));
    store.ingest(4, pair("B", "D"), beats("B"));
    store.ingest(4, pair("C", "D"), beats("C"));
    store.ingest(4, pair("A", "B"), MatchOutcome::Pending);
    store.ingest(4, pair("A", "C"), MatchOutcome::Pending);
    store.ingest(4, pair("B", "C"), MatchOutcome::Pending);
    let record = store.finalize(4);
    let all = wins_of(&record);
    assert_eq!(all.len(), 8);
    // A beats B, C beats A, B beats C: three players on two wins.
    assert!(all.contains(&vec![2, 2, 2, 0]));
    // A beats B and C, B beats C: no count is shared.
    assert!(all.contains(&vec![3, 2, 1, 0]));
    let analysis = analyze(&record);
    assert_eq!(analysis.classification, Classification::Possible);
}

#[test]
fn four_players_enumerate_in_the_order_of_the_pairs() {
    let mut record = GroupRecord::new();
    record.register(pair("C", "D"), Standing::Win);
    record.register(pair("B", "C"), Standing::Tbd);
    record.register(pair("A", "B"), Standing::Tbd);
    // Pairs in ascending order: (A,B) pending, (B,C) pending, (C,D) won by C.
    assert_eq!(
        wins_of(&record),
        vec![vec![1, 1, 1, 0], vec![0, 2, 1, 0], vec![1, 0, 2, 0], vec![0, 1, 2, 0]]
    );
}

#[test]
fn empty_group_is_impossible_and_shows_no_branch() {
    let record = GroupRecord::new();
    assert!(members(&record).is_empty());
    let vectors = enumerate(&record);
    assert_eq!(vectors.len(), 1);
    assert!(vectors[0].wins().is_empty());
    assert_eq!(classify(&vectors, 0), Classification::Impossible);
    let analysis = analyze(&record);
    assert_eq!(analysis.classification, Classification::Impossible);

    let store = MatchResultStore::new();
    assert_eq!(store.finalize(7).len(), 0);
    let written = render_group(7, &analyze(&store.finalize(7)), &NameBook::new()).unwrap();
    assert_eq!(written.classification, Classification::Impossible);
    assert_eq!(written.header, "group 7: 3-way tie impossible");
    assert!(written.branches.is_empty());
    let reports = report(&store, &NameBook::new()).unwrap();
    assert!(reports.is_empty());
}

#[test]
fn score_vector_maps_each_player_to_a_count() {
    let mut store = MatchResultStore::new();
    store.ingest(1, pair("ann", "bob"), beats("bob"));
    store.ingest(1, pair("ann", "cy"), beats("ann"));
    store.ingest(1, pair("bob", "cy"), beats("bob"));
    let record = store.finalize(1);
    let players = members(&record);
    let vectors = enumerate(&record);
    assert_eq!(vectors.len(), 1);
    assert_eq!(score_of(&players, &vectors[0], &id("ann")), Some(1));
    assert_eq!(score_of(&players, &vectors[0], &id("bob")), Some(2));
    assert_eq!(score_of(&players, &vectors[0], &id("cy")), Some(0));
    assert_eq!(score_of(&players, &vectors[0], &id("dee")), None);
    assert_eq!(score_of(&players, &vectors[0], &id("")), None);
}

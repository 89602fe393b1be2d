use startgg_3way_ties::ids::{IdPair, Rank, ID};
use startgg_3way_ties::members::{members, seat_of};
use startgg_3way_ties::names::NameBook;
use startgg_3way_ties::record::{GroupRecord, MatchOutcome, Standing};
use startgg_3way_ties::store::MatchResultStore;

fn id(name: &str) -> ID {
    ID(name.to_string())
}

#[test]
fn tokens_are_ordered_byte_by_byte() {
    assert_eq!(id("a").rank(&id("b")), Rank::Before);
    assert_eq!(id("b").rank(&id("a")), Rank::After);
    assert_eq!(id("ab").rank(&id("ab")), Rank::Same);
    assert_eq!(id("a").rank(&id("ab")), Rank::Before);
    assert_eq!(id("").rank(&id("a")), Rank::Before);
    assert_eq!(id("").rank(&id("")), Rank::Same);
    // As text, not as numbers.
    assert_eq!(id("10").rank(&id("9")), Rank::Before);
    assert!(id("x1").same(&id("x1")));
    assert!(!id("x1").same(&id("x2")));
    assert_eq!(id("x1").clone(), id("x1"));
}

#[test]
fn pair_is_the_same_either_way_round() {
    let one = IdPair::new(id("7"), id("3"));
    let other = IdPair::new(id("3"), id("7"));
    assert_eq!(one, other);
    assert_eq!(one.first(), &id("3"));
    assert_eq!(one.second(), &id("7"));
    assert_eq!(one.rank(&other), Rank::Same);
    assert!(one.holds(&id("3")));
    assert!(one.holds(&id("7")));
    assert!(!one.holds(&id("5")));
    assert_eq!(one.clone(), other);
}

#[test]
fn pairs_are_ordered_by_first_then_second() {
    let ab = IdPair::new(id("A"), id("B"));
    let ac = IdPair::new(id("C"), id("A"));
    let bc = IdPair::new(id("B"), id("C"));
    assert_eq!(ab.rank(&ac), Rank::Before);
    assert_eq!(ac.rank(&bc), Rank::Before);
    assert_eq!(bc.rank(&ab), Rank::After);
}

#[test]
fn outcome_is_read_from_the_first_player() {
    let pair = IdPair::new(id("B"), id("A"));
    assert_eq!(MatchOutcome::Decided(id("A")).standing_in(&pair), Some(Standing::Win));
    assert_eq!(MatchOutcome::Decided(id("B")).standing_in(&pair), Some(Standing::Loss));
    assert_eq!(MatchOutcome::Pending.standing_in(&pair), Some(Standing::Tbd));
    assert_eq!(MatchOutcome::Decided(id("C")).standing_in(&pair), None);
}

#[test]
fn record_keeps_each_pair_once_in_order() {
    let mut record = GroupRecord::new();
    record.register(IdPair::new(id("B"), id("C")), Standing::Tbd);
    record.register(IdPair::new(id("A"), id("C")), Standing::Win);
    record.register(IdPair::new(id("B"), id("A")), Standing::Loss);
    assert_eq!(record.len(), 3);
    assert_eq!(record.pair_at(0), &IdPair::new(id("A"), id("B")));
    assert_eq!(record.pair_at(1), &IdPair::new(id("A"), id("C")));
    assert_eq!(record.pair_at(2), &IdPair::new(id("B"), id("C")));
    assert_eq!(record.standing_at(0), Standing::Loss);
    assert_eq!(record.standing_at(1), Standing::Win);
    assert_eq!(record.standing_at(2), Standing::Tbd);
    assert_eq!(record.outcome(&IdPair::new(id("C"), id("A"))), Some(Standing::Win));
    assert_eq!(record.outcome(&IdPair::new(id("C"), id("D"))), None);
}

#[test]
fn last_registration_of_a_pair_counts() {
    let mut record = GroupRecord::new();
    record.register(IdPair::new(id("A"), id("B")), Standing::Tbd);
    record.register(IdPair::new(id("A"), id("C")), Standing::Tbd);
    record.register(IdPair::new(id("B"), id("A")), Standing::Win);
    assert_eq!(record.len(), 2);
    assert_eq!(record.outcome(&IdPair::new(id("A"), id("B"))), Some(Standing::Win));
    assert_eq!(record.outcome(&IdPair::new(id("A"), id("C"))), Some(Standing::Tbd));
    let copy = record.clone();
    assert_eq!(copy.len(), 2);
    assert_eq!(copy.standing_at(0), Standing::Win);
}

#[test]
fn store_keeps_groups_apart_and_in_order() {
    let mut store = MatchResultStore::new();
    store.ingest(20, IdPair::new(id("A"), id("B")), MatchOutcome::Pending);
    store.ingest(3, IdPair::new(id("C"), id("D")), MatchOutcome::Decided(id("D")));
    store.ingest(20, IdPair::new(id("A"), id("C")), MatchOutcome::Decided(id("A")));
    store.ingest(20, IdPair::new(id("B"), id("A")), MatchOutcome::Decided(id("B")));
    assert_eq!(store.len(), 2);
    assert_eq!(store.key_at(0), 3);
    assert_eq!(store.key_at(1), 20);
    assert_eq!(store.record_at(0).len(), 1);
    assert_eq!(store.record_at(0).standing_at(0), Standing::Loss);
    let record = store.finalize(20);
    assert_eq!(record.len(), 2);
    assert_eq!(record.outcome(&IdPair::new(id("A"), id("B"))), Some(Standing::Loss));
    assert_eq!(record.outcome(&IdPair::new(id("A"), id("C"))), Some(Standing::Win));
    assert_eq!(store.finalize(4).len(), 0);
}

#[test]
fn members_are_each_player_once_in_order() {
    let mut record = GroupRecord::new();
    record.register(IdPair::new(id("delta"), id("beta")), Standing::Tbd);
    record.register(IdPair::new(id("alpha"), id("delta")), Standing::Tbd);
    record.register(IdPair::new(id("beta"), id("alpha")), Standing::Tbd);
    let players = members(&record);
    assert_eq!(players, vec![id("alpha"), id("beta"), id("delta")]);
    assert_eq!(seat_of(&players, &id("beta")), (1, true));
    assert_eq!(seat_of(&players, &id("carol")), (2, false));
    assert_eq!(seat_of(&players, &id("zed")), (3, false));
}

#[test]
fn names_are_kept_by_token_and_renamed() {
    let mut names = NameBook::new();
    assert_eq!(names.label(&id("1")), None);
    names.record(id("2"), "Bo".to_string());
    names.record(id("1"), "Al".to_string());
    names.record(id("2"), "Bob".to_string());
    assert_eq!(names.label(&id("1")), Some(&"Al".to_string()));
    assert_eq!(names.label(&id("2")), Some(&"Bob".to_string()));
    assert_eq!(names.label(&id("3")), None);
}

#[test]
fn tokens_of_texts_are_ordered_as_the_texts() {
    assert_eq!(ID::from_text("1234"), ID("1234".to_string()));
    assert_eq!(ID::from_text(""), ID(String::new()));
    assert_eq!(ID::from_text("\u{e9}").0.as_bytes(), [0xc3, 0xa9]);
    for (a, b) in [("10", "9"), ("a", "b"), ("z", "\u{e9}"), ("ab", "abc"), ("\u{e9}", "\u{1f600}")] {
        assert!(a < b);
        assert!(ID::from_text(a) < ID::from_text(b));
        assert_eq!(ID::from_text(a).rank(&ID::from_text(b)), Rank::Before);
        assert_eq!(ID::from_text(b).rank(&ID::from_text(a)), Rank::After);
    }
}

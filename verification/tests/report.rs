use startgg_3way_ties::classify::Classification;
use startgg_3way_ties::enumerate::ScoreVector;
use startgg_3way_ties::ids::{IdPair, ID};
use startgg_3way_ties::names::NameBook;
use startgg_3way_ties::record::MatchOutcome;
use startgg_3way_ties::report::{
    analyze, branch_line, header_line, render_group, report, GroupAnalysis,
};
use startgg_3way_ties::store::MatchResultStore;
use startgg_3way_ties::text::decimal_text;

fn id(name: &str) -> ID {
    ID(name.to_string())
}

fn names_of(players: &[(&str, &str)]) -> NameBook {
    let mut names = NameBook::new();
    for (token, name) in players {
        names.record(id(token), name.to_string());
    }
    names
}

#[test]
fn numbers_are_written_in_decimal() {
    assert_eq!(decimal_text(0), "0");
    assert_eq!(decimal_text(7), "7");
    assert_eq!(decimal_text(10), "10");
    assert_eq!(decimal_text(1234567890), "1234567890");
    assert_eq!(decimal_text(u64::MAX), "18446744073709551615");
}

#[test]
fn header_names_group_and_classification() {
    assert_eq!(
        header_line(12, Classification::Guaranteed),
        "group 12: 3-way tie guaranteed, possible scores:"
    );
    assert_eq!(
        header_line(3, Classification::Possible),
        "group 3: 3-way tie possible, possible scores:"
    );
    assert_eq!(header_line(0, Classification::Impossible), "group 0: 3-way tie impossible");
}

#[test]
fn branch_line_joins_name_and_count_of_each_player() {
    let players = vec![id("1"), id("2"), id("3")];
    let names = names_of(&[("3", "Cy"), ("1", "Al"), ("2", "Bo")]);
    let line = branch_line(&players, &names, &ScoreVector::new(vec![2, 0, 11]));
    assert_eq!(line, Some("Al: 2, Bo: 0, Cy: 11".to_string()));
    let single = branch_line(&vec![id("2")], &names, &ScoreVector::new(vec![4]));
    assert_eq!(single, Some("Bo: 4".to_string()));
    let nobody = branch_line(&vec![], &names, &ScoreVector::new(vec![]));
    assert_eq!(nobody, Some(String::new()));
}

#[test]
fn branch_line_needs_a_name_and_a_count_for_each_player() {
    let players = vec![id("1"), id("2")];
    let names = names_of(&[("1", "Al")]);
    assert_eq!(branch_line(&players, &names, &ScoreVector::new(vec![1, 0])), None);
    let all = names_of(&[("1", "Al"), ("2", "Bo")]);
    assert_eq!(branch_line(&players, &all, &ScoreVector::new(vec![1])), None);
    assert_eq!(branch_line(&players, &all, &ScoreVector::new(vec![1, 0, 0])), None);
}

#[test]
fn report_of_a_guaranteed_group_shows_its_branch() {
    let mut store = MatchResultStore::new();
    store.ingest(1, IdPair::new(id("a"), id("b")), MatchOutcome::Decided(id("a")));
    store.ingest(1, IdPair::new(id("b"), id("c")), MatchOutcome::Decided(id("b")));
    store.ingest(1, IdPair::new(id("c"), id("a")), MatchOutcome::Decided(id("c")));
    let names = names_of(&[("a", "Ann"), ("b", "Ben"), ("c", "Cat")]);
    let reports = report(&store, &names).unwrap();
    assert_eq!(reports.len(), 1);
    assert_eq!(reports[0].group, 1);
    assert_eq!(reports[0].classification, Classification::Guaranteed);
    assert_eq!(reports[0].header, "group 1: 3-way tie guaranteed, possible scores:");
    assert_eq!(reports[0].branches, vec!["Ann: 1, Ben: 1, Cat: 1".to_string()]);
}

#[test]
fn report_of_an_impossible_group_shows_no_branch_and_needs_no_name() {
    let mut store = MatchResultStore::new();
    store.ingest(2, IdPair::new(id("a"), id("b")), MatchOutcome::Decided(id("a")));
    store.ingest(2, IdPair::new(id("a"), id("c")), MatchOutcome::Decided(id("a")));
    store.ingest(2, IdPair::new(id("b"), id("c")), MatchOutcome::Pending);
    let reports = report(&store, &NameBook::new()).unwrap();
    assert_eq!(reports.len(), 1);
    assert_eq!(reports[0].classification, Classification::Impossible);
    assert_eq!(reports[0].header, "group 2: 3-way tie impossible");
    assert!(reports[0].branches.is_empty());
}

#[test]
fn report_lists_groups_in_order_and_branches_as_enumerated() {
    let mut store = MatchResultStore::new();
    for (a, b) in [("a", "d"), ("b", "d"), ("c", "d")] {
        store.ingest(10, IdPair::new(id(a), id(b)), MatchOutcome::Decided(id(a)));
    }
    store.ingest(10, IdPair::new(id("a"), id("b")), MatchOutcome::Decided(id("a")));
    store.ingest(10, IdPair::new(id("b"), id("c")), MatchOutcome::Decided(id("b")));
    store.ingest(10, IdPair::new(id("a"), id("c")), MatchOutcome::Pending);
    store.ingest(9, IdPair::new(id("x"), id("y")), MatchOutcome::Pending);
    let names = names_of(&[("a", "Ann"), ("b", "Ben"), ("c", "Cat"), ("d", "Dan")]);
    let reports = report(&store, &names).unwrap();
    assert_eq!(reports.len(), 2);
    assert_eq!(reports[0].group, 9);
    assert_eq!(reports[0].header, "group 9: 3-way tie impossible");
    assert_eq!(reports[1].group, 10);
    assert_eq!(reports[1].classification, Classification::Possible);
    assert_eq!(reports[1].header, "group 10: 3-way tie possible, possible scores:");
    assert_eq!(
        reports[1].branches,
        vec![
            "Ann: 3, Ben: 2, Cat: 1, Dan: 0".to_string(),
            "Ann: 2, Ben: 2, Cat: 2, Dan: 0".to_string(),
        ]
    );
}

#[test]
fn report_needs_the_names_of_a_group_with_a_tie() {
    let mut store = MatchResultStore::new();
    store.ingest(1, IdPair::new(id("a"), id("b")), MatchOutcome::Decided(id("a")));
    store.ingest(1, IdPair::new(id("b"), id("c")), MatchOutcome::Decided(id("b")));
    store.ingest(1, IdPair::new(id("c"), id("a")), MatchOutcome::Decided(id("c")));
    let names = names_of(&[("a", "Ann"), ("b", "Ben")]);
    assert!(report(&store, &names).is_none());
    let analysis = analyze(&store.finalize(1));
    assert!(render_group(1, &analysis, &names).is_none());
}

#[test]
fn render_group_writes_what_the_analysis_holds() {
    let analysis = GroupAnalysis {
        members: vec![id("p"), id("q"), id("r")],
        vectors: vec![ScoreVector::new(vec![1, 1, 1]), ScoreVector::new(vec![2, 1, 0])],
        classification: Classification::Possible,
    };
    let names = names_of(&[("p", "P"), ("q", "Q"), ("r", "R")]);
    let rendered = render_group(5, &analysis, &names).unwrap();
    assert_eq!(rendered.group, 5);
    assert_eq!(rendered.header, "group 5: 3-way tie possible, possible scores:");
    assert_eq!(
        rendered.branches,
        vec!["P: 1, Q: 1, R: 1".to_string(), "P: 2, Q: 1, R: 0".to_string()]
    );
}

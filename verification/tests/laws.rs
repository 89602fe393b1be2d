use startgg_3way_ties::classify::{
    classify, count_sharers, three_way_tie, Classification,
};
use startgg_3way_ties::enumerate::{enumerate, ScoreVector};
use startgg_3way_ties::ids::{IdPair, ID};
use startgg_3way_ties::members::members;
use startgg_3way_ties::record::Standing::{Loss, Tbd, Win};
use startgg_3way_ties::record::{GroupRecord, Standing};

fn id(name: &str) -> ID {
    ID(name.to_string())
}

fn record_of(matches: &[(&str, &str, Standing)]) -> GroupRecord {
    let mut record = GroupRecord::new();
    for (a, b, standing) in matches {
        record.register(IdPair::new(id(a), id(b)), *standing);
    }
    record
}

fn wins_of(record: &GroupRecord) -> Vec<Vec<usize>> {
    enumerate(record).iter().map(|v| v.wins().clone()).collect()
}

fn sorted(mut vectors: Vec<Vec<usize>>) -> Vec<Vec<usize>> {
    vectors.sort();
    vectors
}

fn round_robin_of_four(standings: [Standing; 6]) -> GroupRecord {
    record_of(&[
        ("A", "B", standings[0]),
        ("A", "C", standings[1]),
        ("A", "D", standings[2]),
        ("B", "C", standings[3]),
        ("B", "D", standings[4]),
        ("C", "D", standings[5]),
    ])
}

#[test]
fn branch_count_is_two_to_the_pending() {
    assert_eq!(enumerate(&round_robin_of_four([Win, Loss, Win, Win, Loss, Win])).len(), 1);
    assert_eq!(enumerate(&round_robin_of_four([Tbd, Loss, Win, Win, Loss, Win])).len(), 2);
    assert_eq!(enumerate(&round_robin_of_four([Tbd, Loss, Tbd, Win, Loss, Win])).len(), 4);
    assert_eq!(enumerate(&round_robin_of_four([Tbd, Tbd, Tbd, Win, Loss, Tbd])).len(), 16);
    assert_eq!(enumerate(&round_robin_of_four([Tbd, Tbd, Tbd, Tbd, Tbd, Tbd])).len(), 64);
}

#[test]
fn branch_count_keeps_equal_vectors() {
    // Two pending matches of a cycle of three reach {1, 1, 1} on one way only,
    // but three pending matches reach it on two ways.
    let record = record_of(&[
        ("A", "B", Tbd),
        ("A", "C", Tbd),
        ("B", "C", Tbd),
    ]);
    let all = wins_of(&record);
    assert_eq!(all.len(), 8);
    assert_eq!(all.iter().filter(|v| **v == vec![1, 1, 1]).count(), 2);
}

#[test]
fn every_vector_sums_to_the_number_of_matches() {
    let record = round_robin_of_four([Tbd, Win, Tbd, Loss, Tbd, Win]);
    let vectors = enumerate(&record);
    assert_eq!(vectors.len(), 8);
    for v in &vectors {
        assert_eq!(v.len(), 4);
        assert_eq!(v.wins().iter().sum::<usize>(), 6);
    }
    let partial = record_of(&[("A", "B", Tbd), ("C", "D", Win)]);
    for v in &enumerate(&partial) {
        assert_eq!(v.wins().iter().sum::<usize>(), 2);
    }
}

#[test]
fn resolving_a_pending_match_splits_the_vectors() {
    let open = round_robin_of_four([Tbd, Win, Tbd, Loss, Tbd, Win]);
    let won = round_robin_of_four([Tbd, Win, Win, Loss, Tbd, Win]);
    let lost = round_robin_of_four([Tbd, Win, Loss, Loss, Tbd, Win]);
    let all = wins_of(&open);
    let with_win = wins_of(&won);
    let with_loss = wins_of(&lost);
    assert_eq!(with_win.len() * 2, all.len());
    assert_eq!(with_loss.len() * 2, all.len());
    let mut both = with_win.clone();
    both.extend(with_loss.clone());
    assert_eq!(sorted(all), sorted(both));
}

#[test]
fn resolving_the_last_pair_keeps_the_order_of_the_halves() {
    let open = record_of(&[("A", "B", Win), ("A", "C", Tbd), ("B", "C", Tbd)]);
    let won = record_of(&[("A", "B", Win), ("A", "C", Tbd), ("B", "C", Win)]);
    let lost = record_of(&[("A", "B", Win), ("A", "C", Tbd), ("B", "C", Loss)]);
    let mut halves = wins_of(&won);
    halves.extend(wins_of(&lost));
    assert_eq!(wins_of(&open), halves);
}

#[test]
fn decided_group_is_never_merely_possible() {
    let tie = round_robin_of_four([Win, Loss, Win, Win, Win, Win]);
    // A: 2, B: 2, C: 2, D: 0
    assert_eq!(wins_of(&tie), vec![vec![2, 2, 2, 0]]);
    let players = members(&tie).len();
    assert_eq!(classify(&enumerate(&tie), players), Classification::Guaranteed);
    let ladder = round_robin_of_four([Win, Win, Win, Win, Win, Win]);
    assert_eq!(wins_of(&ladder), vec![vec![3, 2, 1, 0]]);
    assert_eq!(classify(&enumerate(&ladder), players), Classification::Impossible);
}

#[test]
fn classification_looks_at_every_vector() {
    let tie = ScoreVector::new(vec![1, 1, 1]);
    let none = ScoreVector::new(vec![2, 1, 0]);
    assert_eq!(classify(&vec![tie.clone(), tie.clone()], 3), Classification::Guaranteed);
    assert_eq!(classify(&vec![tie.clone(), none.clone()], 3), Classification::Possible);
    assert_eq!(classify(&vec![none.clone(), tie.clone()], 3), Classification::Possible);
    assert_eq!(classify(&vec![none.clone(), none.clone(), tie.clone()], 3), Classification::Possible);
    assert_eq!(classify(&vec![none.clone(), none.clone()], 3), Classification::Impossible);
    assert_eq!(classify(&vec![], 3), Classification::Impossible);
}

#[test]
fn four_on_one_count_is_no_three_way_tie() {
    let four = ScoreVector::new(vec![1, 1, 1, 1]);
    assert_eq!(count_sharers(&four, 1), 4);
    assert!(!three_way_tie(&four, 4));
    assert_eq!(classify(&vec![four], 4), Classification::Impossible);
    let five = ScoreVector::new(vec![2, 2, 2, 2, 2]);
    assert!(!three_way_tie(&five, 5));
}

#[test]
fn four_on_one_count_beside_three_on_another_is_a_tie() {
    let v = ScoreVector::new(vec![1, 1, 1, 1, 2, 2, 2]);
    assert_eq!(count_sharers(&v, 1), 4);
    assert_eq!(count_sharers(&v, 2), 3);
    assert!(three_way_tie(&v, 7));
}

#[test]
fn tie_needs_exactly_three_on_a_count_below_the_player_count() {
    assert!(three_way_tie(&ScoreVector::new(vec![0, 0, 0]), 3));
    assert!(three_way_tie(&ScoreVector::new(vec![2, 0, 2, 5, 2]), 5));
    assert!(!three_way_tie(&ScoreVector::new(vec![2, 2, 1]), 3));
    assert!(!three_way_tie(&ScoreVector::new(vec![]), 0));
    // Counts from the player count on are not looked at.
    assert!(!three_way_tie(&ScoreVector::new(vec![3, 3, 3]), 3));
    assert!(three_way_tie(&ScoreVector::new(vec![3, 3, 3]), 4));
}

fn tables_of_all_endings(matches: &[(&str, &str, Standing)], players: &[&str]) -> Vec<Vec<usize>> {
    let open: Vec<usize> =
        (0..matches.len()).filter(|i| matches[*i].2 == Tbd).collect();
    let mut tables = Vec::new();
    for choice in 0..(1usize << open.len()) {
        let mut table = vec![0; players.len()];
        for (i, (a, b, standing)) in matches.iter().enumerate() {
            let (low, high) = if a < b { (a, b) } else { (b, a) };
            let first_wins = match standing {
                Win => true,
                Loss => false,
                Tbd => {
                    let bit = open.iter().position(|o| *o == i).unwrap();
                    choice & (1 << bit) == 0
                },
            };
            let winner = if first_wins { low } else { high };
            table[players.iter().position(|p| p == winner).unwrap()] += 1;
        }
        tables.push(table);
    }
    tables
}

#[test]
fn vectors_are_the_tables_of_all_endings() {
    let matches = [
        ("A", "B", Tbd),
        ("A", "C", Win),
        ("A", "D", Tbd),
        ("B", "C", Loss),
        ("B", "D", Tbd),
        ("C", "D", Tbd),
    ];
    let record = record_of(&matches);
    let tables = tables_of_all_endings(&matches, &["A", "B", "C", "D"]);
    assert_eq!(tables.len(), 16);
    assert_eq!(sorted(wins_of(&record)), sorted(tables));
}

#[test]
fn vectors_do_not_depend_on_the_order_of_arrival() {
    let matches = [("A", "B", Tbd), ("A", "C", Win), ("B", "C", Tbd), ("C", "D", Loss)];
    let mut backwards = matches;
    backwards.reverse();
    assert_eq!(wins_of(&record_of(&matches)), wins_of(&record_of(&backwards)));
}

#[test]
fn resolved_match_shows_in_every_vector() {
    let won = round_robin_of_four([Tbd, Win, Win, Loss, Tbd, Win]);
    for v in wins_of(&won) {
        // A has beaten C and D.
        assert!(v[0] >= 2);
    }
    let lost = round_robin_of_four([Tbd, Win, Loss, Loss, Tbd, Win]);
    for v in wins_of(&lost) {
        // D has beaten A.
        assert!(v[3] >= 1);
    }
}

fn has_tie(table: &[usize]) -> bool {
    (0..table.len()).any(|c| table.iter().filter(|w| **w == c).count() == 3)
}

#[test]
fn classification_speaks_of_all_endings() {
    let groups: [&[(&str, &str, Standing)]; 4] = [
        &[
            ("A", "B", Win),
            ("B", "C", Tbd),
            ("A", "C", Loss),
            ("A", "D", Win),
            ("B", "D", Win),
            ("C", "D", Win),
        ],
        &[("A", "B", Tbd), ("B", "C", Tbd), ("A", "C", Tbd)],
        &[
            ("A", "B", Win),
            ("B", "C", Win),
            ("A", "C", Loss),
            ("A", "D", Loss),
            ("B", "D", Loss),
            ("C", "D", Loss),
            ("A", "E", Loss),
            ("B", "E", Loss),
            ("C", "E", Loss),
            ("D", "E", Tbd),
        ],
        &[("A", "B", Win), ("A", "C", Win), ("A", "D", Tbd), ("B", "C", Tbd)],
    ];
    let expected = [
        Classification::Possible,
        Classification::Possible,
        Classification::Guaranteed,
        Classification::Impossible,
    ];
    for (matches, class) in groups.iter().zip(expected) {
        let record = record_of(matches);
        let players = members(&record);
        let names: Vec<&str> = players.iter().map(|p| p.0.as_str()).collect();
        let tables = tables_of_all_endings(matches, &names);
        let some = tables.iter().any(|t| has_tie(t));
        let every = tables.iter().all(|t| has_tie(t));
        let by_endings = if !some {
            Classification::Impossible
        } else if every {
            Classification::Guaranteed
        } else {
            Classification::Possible
        };
        assert_eq!(by_endings, class);
        assert_eq!(classify(&enumerate(&record), players.len()), class);
    }
}

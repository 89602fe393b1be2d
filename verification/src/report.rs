//! The analysis of a group and its report in words.

use crate::classify::{classify, group_classification, Classification};
use crate::enumerate::{enumerate, scores_of, ScoreVector};
use crate::ids::ID;
use crate::members::{members, roster, tokens};
use crate::names::NameBook;
use crate::record::{Fixture, GroupRecord};
use crate::scores::{
    lemma_branches_len, lemma_branches_total, lemma_roster_seats, pending, reachable_scores,
};
use crate::store::MatchResultStore;
use crate::text::{decimal, decimal_text, format_joined, joined, texts};
use vstd::arithmetic::power2::lemma_pow2_pos;
use vstd::prelude::*;
use vstd::string::*;

verus! {

/// What was found of one group: its players in ascending order, every score
/// vector that it can end on, and the classification of its three-way tie.
#[derive(Debug)]
pub struct GroupAnalysis {
    pub members: Vec<ID>,
    pub vectors: Vec<ScoreVector>,
    pub classification: Classification,
}

/// Enumerates and classifies one group.
pub fn analyze(record: &GroupRecord) -> (analysis: GroupAnalysis)
    ensures
        tokens(analysis.members@) == roster(record@),
        scores_of(analysis.vectors@) == reachable_scores(record@),
        analysis.classification == group_classification(record@),
{
    let members = members(record);
    let vectors = enumerate(record);
    let classification = classify(&vectors, members.len());
    GroupAnalysis { members, vectors, classification }
}

/// The names of the players `ts` according to `names`, in the order of `ts`.
pub open spec fn labels_of(ts: Seq<Seq<u8>>, names: Map<Seq<u8>, Seq<char>>) -> Seq<Seq<char>> {
    Seq::new(ts.len(), |i: int| names[ts[i]])
}

/// Every player of `ts` has a name in `names`.
pub open spec fn all_named(ts: Seq<Seq<u8>>, names: Map<Seq<u8>, Seq<char>>) -> bool {
    forall|i: int| 0 <= i < ts.len() ==> names.dom().contains(#[trigger] ts[i])
}

/// One player of a line: the name, a colon, a blank and the win count.
pub open spec fn field(label: Seq<char>, wins: nat) -> Seq<char> {
    label + seq![':', ' '] + decimal(wins)
}

/// The fields of the players named `labels` with the win counts `v`.
pub open spec fn fields(labels: Seq<Seq<char>>, v: Seq<nat>) -> Seq<Seq<char>> {
    Seq::new(labels.len(), |i: int| field(labels[i], v[i]))
}

/// The line of one score vector: the fields of all players, with a comma and
/// a blank between each two of them.
pub open spec fn branch_text(labels: Seq<Seq<char>>, v: Seq<nat>) -> Seq<char> {
    joined(fields(labels, v), seq![',', ' '])
}

/// The line that opens the report of a group.
pub open spec fn header_text(group: u64, class: Classification) -> Seq<char> {
    "group "@ + decimal(group as nat) + match class {
        Classification::Guaranteed => ": 3-way tie guaranteed, possible scores:"@,
        Classification::Possible => ": 3-way tie possible, possible scores:"@,
        Classification::Impossible => ": 3-way tie impossible"@,
    }
}

/// The line of one score vector: for each player the name and the win count.
/// There is no line where the vector has not one count for each player, or
/// where a player has no name.
pub fn branch_line(members: &Vec<ID>, names: &NameBook, vector: &ScoreVector) -> (line: Option<
    String,
>)
    requires
        names.wf(),
    ensures
        line is Some <==> (vector@.len() == members@.len() && all_named(tokens(members@), names@)),
        line matches Some(text) ==> text@ == branch_text(
            labels_of(tokens(members@), names@),
            vector@,
        ),
{
    if vector.len() != members.len() {
        return None;
    }
    let ghost ts = tokens(members@);
    let ghost labels = labels_of(ts, names@);
    let mut parts: Vec<String> = Vec::new();
    let mut i: usize = 0;
    while i < members.len()
        invariant
            i <= members@.len(),
            names.wf(),
            vector@.len() == members@.len(),
            ts == tokens(members@),
            labels == labels_of(ts, names@),
            parts@.len() == i,
            forall|j: int| 0 <= j < i ==> names@.dom().contains(#[trigger] ts[j]),
            forall|j: int| 0 <= j < i ==> (#[trigger] parts@[j])@ == field(labels[j], vector@[j]),
        decreases members@.len() - i,
    {
        assert(ts[i as int] == members@[i as int]@);
        match names.label(&members[i]) {
            None => {
                return None;
            },
            Some(label) => {
                let mut part = label.clone();
                part.append(": ");
                let count = decimal_text(vector.wins_at(i) as u64);
                part.append(count.as_str());
                proof {
                    reveal_strlit(": ");
                    assert(": "@ =~= seq![':', ' ']);
                    assert(part@ =~= field(labels[i as int], vector@[i as int]));
                }
                parts.push(part);
            },
        }
        i += 1;
    }
    let line = format_joined(&parts, ", ");
    proof {
        reveal_strlit(", ");
        assert(", "@ =~= seq![',', ' ']);
        assert(texts(parts@) =~= fields(labels, vector@));
    }
    Some(line)
}

/// The line that opens the report of a group.
pub fn header_line(group: u64, class: Classification) -> (line: String)
    ensures
        line@ == header_text(group, class),
{
    let mut line = String::from_str("group ");
    let number = decimal_text(group);
    line.append(number.as_str());
    match class {
        Classification::Guaranteed => line.append(": 3-way tie guaranteed, possible scores:"),
        Classification::Possible => line.append(": 3-way tie possible, possible scores:"),
        Classification::Impossible => line.append(": 3-way tie impossible"),
    }
    assert(line@ =~= header_text(group, class));
    line
}

/// The report of one group in words.
#[derive(Debug)]
pub struct GroupReport {
    /// The key of the group.
    pub group: u64,
    /// What was found of its three-way tie.
    pub classification: Classification,
    /// The line that opens the report.
    pub header: String,
    /// One line for each score vector, in the order of the enumeration: none
    /// where a tie is impossible.
    pub branches: Vec<String>,
}

/// The lines of the score vectors `vs` of the players `ts`: none where a tie
/// is impossible.
pub open spec fn branch_texts(
    ts: Seq<Seq<u8>>,
    vs: Seq<Seq<nat>>,
    class: Classification,
    names: Map<Seq<u8>, Seq<char>>,
) -> Seq<Seq<char>> {
    if class == Classification::Impossible {
        Seq::empty()
    } else {
        Seq::new(vs.len(), |j: int| branch_text(labels_of(ts, names), vs[j]))
    }
}

/// Every line that the report of the score vectors `vs` needs can be written.
pub open spec fn renderable(
    ts: Seq<Seq<u8>>,
    vs: Seq<Seq<nat>>,
    class: Classification,
    names: Map<Seq<u8>, Seq<char>>,
) -> bool {
    class == Classification::Impossible || forall|j: int|
        0 <= j < vs.len() ==> (#[trigger] vs[j]).len() == ts.len() && all_named(ts, names)
}

/// Writes the report of one analysed group: the opening line, and unless a
/// tie is impossible one line for each score vector. There is no report
/// where one of these lines cannot be written.
pub fn render_group(group: u64, analysis: &GroupAnalysis, names: &NameBook) -> (report: Option<
    GroupReport,
>)
    requires
        names.wf(),
    ensures
        report is Some <==> renderable(
            tokens(analysis.members@),
            scores_of(analysis.vectors@),
            analysis.classification,
            names@,
        ),
        report matches Some(r) ==> r.group == group && r.classification == analysis.classification
            && r.header@ == header_text(group, analysis.classification) && texts(r.branches@)
            == branch_texts(
            tokens(analysis.members@),
            scores_of(analysis.vectors@),
            analysis.classification,
            names@,
        ),
{
    let ghost ts = tokens(analysis.members@);
    let ghost vs = scores_of(analysis.vectors@);
    let class = analysis.classification;
    let header = header_line(group, class);
    let mut branches: Vec<String> = Vec::new();
    if class != Classification::Impossible {
        let mut j: usize = 0;
        while j < analysis.vectors.len()
            invariant
                j <= analysis.vectors@.len(),
                names.wf(),
                class == analysis.classification,
                class != Classification::Impossible,
                ts == tokens(analysis.members@),
                vs == scores_of(analysis.vectors@),
                branches@.len() == j,
                forall|m: int| 0 <= m < j ==> (#[trigger] vs[m]).len() == ts.len() && all_named(
                    ts,
                    names@,
                ),
                forall|m: int|
                    0 <= m < j ==> (#[trigger] branches@[m])@ == branch_text(
                        labels_of(ts, names@),
                        vs[m],
                    ),
            decreases analysis.vectors@.len() - j,
        {
            assert(vs[j as int] == analysis.vectors@[j as int]@);
            match branch_line(&analysis.members, names, &analysis.vectors[j]) {
                None => {
                    return None;
                },
                Some(line) => {
                    branches.push(line);
                },
            }
            j += 1;
        }
    }
    assert(texts(branches@) =~= branch_texts(ts, vs, class, names@));
    Some(GroupReport { group, classification: class, header, branches })
}

/// The report of a group with the fixtures `fs` can be written: a tie is
/// impossible, or every player of the group has a name.
pub open spec fn group_renderable(fs: Seq<Fixture>, names: Map<Seq<u8>, Seq<char>>) -> bool {
    group_classification(fs) == Classification::Impossible || all_named(roster(fs), names)
}

/// The lines of a group can be written exactly where its report can be:
/// the group has at least one score vector, and each has one count for each
/// player.
proof fn lemma_group_renderable(fs: Seq<Fixture>, names: Map<Seq<u8>, Seq<char>>)
    ensures
        group_renderable(fs, names) <==> renderable(
            roster(fs),
            reachable_scores(fs),
            group_classification(fs),
            names,
        ),
{
    lemma_branches_len(fs, roster(fs));
    lemma_pow2_pos(pending(fs));
    lemma_roster_seats(fs);
    lemma_branches_total(fs, roster(fs));
    assert(reachable_scores(fs)[0].len() == roster(fs).len());
}

/// `r` is the report of the group `key` with the fixtures `fs`.
pub open spec fn reports_group(
    r: GroupReport,
    key: u64,
    fs: Seq<Fixture>,
    names: Map<Seq<u8>, Seq<char>>,
) -> bool {
    &&& r.group == key
    &&& r.classification == group_classification(fs)
    &&& r.header@ == header_text(key, group_classification(fs))
    &&& texts(r.branches@) == branch_texts(
        roster(fs),
        reachable_scores(fs),
        group_classification(fs),
        names,
    )
}

/// Analyses every group of `store` and writes its report, the groups in
/// ascending order of their keys. There is no report where a group in which a
/// tie is not impossible has a player without a name.
pub fn report(store: &MatchResultStore, names: &NameBook) -> (out: Option<Vec<GroupReport>>)
    requires
        names.wf(),
    ensures
        out is Some <==> forall|i: int|
            0 <= i < store@.len() ==> group_renderable((#[trigger] store@[i]).1, names@),
        out matches Some(reports) ==> reports@.len() == store@.len() && forall|i: int|
            0 <= i < store@.len() ==> reports_group(
                #[trigger] reports@[i],
                store@[i].0,
                store@[i].1,
                names@,
            ),
{
    let mut reports: Vec<GroupReport> = Vec::new();
    let mut i: usize = 0;
    while i < store.len()
        invariant
            i <= store@.len(),
            names.wf(),
            reports@.len() == i,
            forall|m: int| 0 <= m < i ==> group_renderable((#[trigger] store@[m]).1, names@),
            forall|m: int|
                0 <= m < i ==> reports_group(
                    #[trigger] reports@[m],
                    store@[m].0,
                    store@[m].1,
                    names@,
                ),
        decreases store@.len() - i,
    {
        let key = store.key_at(i);
        let record = store.record_at(i);
        let analysis = analyze(record);
        proof {
            lemma_group_renderable(record@, names@);
        }
        match render_group(key, &analysis, names) {
            None => {
                return None;
            },
            Some(r) => {
                reports.push(r);
            },
        }
        i += 1;
    }
    Some(reports)
}

} // verus!

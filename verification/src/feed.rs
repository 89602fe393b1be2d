//! Reading one page of match results as the remote service answers it, and
//! registering what it holds.

use crate::ids::{lemma_precedes_asymmetric, lemma_precedes_total, precedes, IdPair, ID};
use crate::names::NameBook;
use crate::record::{Fixture, MatchOutcome, Standing};
use crate::store::{ingested, MatchResultStore};
use core::num::ParseIntError;
use vstd::prelude::*;
use vstd::string::*;

verus! {

/// The service allows eighty requests in sixty seconds on average: the
/// shortest time between two requests, in milliseconds.
pub const REQUEST_INTERVAL_MILLIS: u64 = 60_000 / 80;

/// The page to ask for after `page`, where the first page announced
/// `total_pages` pages: the next one, until the last is reached.
pub fn next_page(page: i64, total_pages: i64) -> (next: Option<i64>)
    ensures
        next == if page < total_pages {
            Some((page + 1) as i64)
        } else {
            None
        },
{
    if page < total_pages {
        Some(page + 1)
    } else {
        None
    }
}

/// The error of the standard library's integer parsing, carried through.
#[verifier::external_type_specification]
#[verifier::external_body]
pub struct ExParseIntError(core::num::ParseIntError);

/// One error of a GraphQL answer as `graphql_client` holds it, carried
/// through.
#[verifier::external_type_specification]
#[verifier::external_body]
pub struct ExGraphQlError(graphql_client::Error);

/// Why a page could not be taken in.
#[derive(Debug)]
pub enum FeedError {
    /// The display identifier of a group is no number.
    ParseInt(ParseIntError),
    /// The service answered with errors.
    GraphQL(Vec<graphql_client::Error>),
    /// The service answered with neither data nor errors.
    NoDataNoErrors,
    /// The answer has not the form of a page of sets.
    ResponseFormat,
}

/// A participant of an entrant.
#[derive(Debug)]
pub struct Participant {
    pub id: Option<ID>,
    pub gamer_tag: Option<String>,
}

/// An entrant of a set.
#[derive(Debug)]
pub struct Entrant {
    pub participants: Option<Vec<Option<Participant>>>,
}

/// Where an entrant stands in a set.
#[derive(Debug)]
pub struct SlotStanding {
    pub placement: Option<i64>,
}

/// One side of a set.
#[derive(Debug)]
pub struct Slot {
    pub entrant: Option<Entrant>,
    pub standing: Option<SlotStanding>,
}

/// The phase of a phase group.
#[derive(Debug)]
pub struct Phase {
    pub name: Option<String>,
}

/// The phase group of a set.
#[derive(Debug)]
pub struct PhaseGroup {
    pub display_identifier: Option<String>,
    pub phase: Option<Phase>,
}

/// One set of a page.
#[derive(Debug)]
pub struct SetNode {
    pub phase_group: Option<PhaseGroup>,
    pub slots: Option<Vec<Option<Slot>>>,
}

/// What a page says of the paging.
#[derive(Debug)]
pub struct PageInfo {
    pub total_pages: Option<i64>,
}

/// The sets of a page.
#[derive(Debug)]
pub struct Sets {
    pub page_info: Option<PageInfo>,
    pub nodes: Option<Vec<Option<SetNode>>>,
}

/// The event of an answer.
#[derive(Debug)]
pub struct Event {
    pub sets: Option<Sets>,
}

/// The data of an answer.
#[derive(Debug)]
pub struct ResponseData {
    pub event: Option<Event>,
}

/// One side of a match as the contracts see it.
pub struct Side {
    pub id: Seq<u8>,
    pub name: Seq<char>,
    pub placement: i64,
}

/// What a set holds as the contracts see it.
pub enum Reading {
    /// The set has not the form of a set.
    Malformed,
    /// The set belongs to another phase than the groups.
    OtherPhase,
    /// A match of the group stage.
    Match { group: Seq<char>, first: Side, second: Side },
}

/// The side that a slot holds: none unless the slot has a placement and an
/// entrant of exactly one participant with a token and a name.
pub open spec fn side_of(slot: Option<Slot>) -> Option<Side> {
    match slot {
        Some(
            Slot {
                entrant: Some(Entrant { participants: Some(participants) }),
                standing: Some(SlotStanding { placement: Some(placement) }),
            },
        ) => if participants@.len() == 1 {
            match participants@[0] {
                Some(Participant { id: Some(id), gamer_tag: Some(name) }) => Some(
                    Side { id: id@, name: name@, placement },
                ),
                _ => None,
            }
        } else {
            None
        },
        _ => None,
    }
}

/// What the set `node` holds. A set needs a phase group with a display
/// identifier and a named phase, and its slots. A set of another phase than
/// "Groups" is passed over, whatever its slots. A set of the groups needs
/// exactly two slots, each with a side.
pub open spec fn reading_of(node: Option<SetNode>) -> Reading {
    match node {
        Some(
            SetNode {
                phase_group: Some(
                    PhaseGroup {
                        display_identifier: Some(group),
                        phase: Some(Phase { name: Some(phase) }),
                    },
                ),
                slots: Some(slots),
            },
        ) => if phase@ != "Groups"@ {
            Reading::OtherPhase
        } else if slots@.len() != 2 {
            Reading::Malformed
        } else {
            match (side_of(slots@[0]), side_of(slots@[1])) {
                (Some(first), Some(second)) => Reading::Match { group: group@, first, second },
                _ => Reading::Malformed,
            }
        },
        _ => Reading::Malformed,
    }
}

/// One side of a match.
#[derive(Debug)]
pub struct Contestant {
    pub id: ID,
    pub name: String,
    pub placement: i64,
}

impl View for Contestant {
    type V = Side;

    open spec fn view(&self) -> Side {
        Side { id: self.id@, name: self.name@, placement: self.placement }
    }
}

/// What a set holds.
#[derive(Debug)]
pub enum SetReading {
    /// The set has not the form of a set.
    Malformed,
    /// The set belongs to another phase than the groups.
    OtherPhase,
    /// A match of the group stage.
    Match { group: String, first: Contestant, second: Contestant },
}

impl View for SetReading {
    type V = Reading;

    open spec fn view(&self) -> Reading {
        match self {
            SetReading::Malformed => Reading::Malformed,
            SetReading::OtherPhase => Reading::OtherPhase,
            SetReading::Match { group, first, second } => Reading::Match {
                group: group@,
                first: first@,
                second: second@,
            },
        }
    }
}

/// Reads the side that a slot holds.
pub fn read_slot(slot: &Option<Slot>) -> (side: Option<Contestant>)
    ensures
        side is Some <==> side_of(*slot) is Some,
        side matches Some(c) ==> c@ == side_of(*slot).unwrap(),
{
    let Some(slot) = slot else {
        return None;
    };
    let Some(entrant) = &slot.entrant else {
        return None;
    };
    let Some(participants) = &entrant.participants else {
        return None;
    };
    let Some(standing) = &slot.standing else {
        return None;
    };
    let Some(placement) = standing.placement else {
        return None;
    };
    if participants.len() != 1 {
        return None;
    }
    let Some(participant) = &participants[0] else {
        return None;
    };
    let Some(id) = &participant.id else {
        return None;
    };
    let Some(name) = &participant.gamer_tag else {
        return None;
    };
    Some(Contestant { id: id.clone(), name: name.clone(), placement })
}

/// Reads what a set holds.
pub fn read_set(node: &Option<SetNode>) -> (reading: SetReading)
    ensures
        reading@ == reading_of(*node),
{
    let Some(node) = node else {
        return SetReading::Malformed;
    };
    let Some(phase_group) = &node.phase_group else {
        return SetReading::Malformed;
    };
    let Some(group) = &phase_group.display_identifier else {
        return SetReading::Malformed;
    };
    let Some(phase) = &phase_group.phase else {
        return SetReading::Malformed;
    };
    let Some(phase_name) = &phase.name else {
        return SetReading::Malformed;
    };
    let Some(slots) = &node.slots else {
        return SetReading::Malformed;
    };
    let groups = String::from_str("Groups");
    if !(*phase_name == groups) {
        return SetReading::OtherPhase;
    }
    if slots.len() != 2 {
        return SetReading::Malformed;
    }
    let Some(first) = read_slot(&slots[0]) else {
        return SetReading::Malformed;
    };
    let Some(second) = read_slot(&slots[1]) else {
        return SetReading::Malformed;
    };
    SetReading::Match { group: group.clone(), first, second }
}

/// The winner of a match by the placements of its two sides: nobody while
/// the placements are equal, else the side with the lower placement.
pub open spec fn winner_of(first: Side, second: Side) -> Option<Seq<u8>> {
    if first.placement == second.placement {
        None
    } else if first.placement < second.placement {
        Some(first.id)
    } else {
        Some(second.id)
    }
}

/// The fixture that a match of two sides makes: the pair with the smaller
/// token first, pending while there is no winner.
pub open spec fn fixture_of(first: Side, second: Side) -> Fixture {
    let pair = if precedes(first.id, second.id) {
        (first.id, second.id)
    } else {
        (second.id, first.id)
    };
    let standing = match winner_of(first, second) {
        None => Standing::Tbd,
        Some(winner) => if winner == pair.0 {
            Standing::Win
        } else {
            Standing::Loss
        },
    };
    Fixture { pair, standing }
}

/// The outcome of a match by the placements of its two sides: pending while
/// the placements are equal, else decided for the side with the lower one.
pub fn resolve(first: &Contestant, second: &Contestant) -> (outcome: MatchOutcome)
    ensures
        outcome is Pending <==> winner_of(first@, second@) is None,
        outcome matches MatchOutcome::Decided(winner) ==> winner_of(first@, second@) == Some(
            winner@,
        ),
{
    if first.placement == second.placement {
        MatchOutcome::Pending
    } else if first.placement < second.placement {
        MatchOutcome::Decided(first.id.clone())
    } else {
        MatchOutcome::Decided(second.id.clone())
    }
}

/// The character is a decimal digit.
pub open spec fn is_digit(c: char) -> bool {
    48 <= c as int <= 57
}

/// The number that a row of decimal digits stands for.
pub open spec fn digits_value(s: Seq<char>) -> nat
    decreases s.len(),
{
    if s.len() == 0 {
        0
    } else {
        (digits_value(s.drop_last()) * 10 + (s.last() as int - 48)) as nat
    }
}

/// The text without the plus sign that may stand at its head.
pub open spec fn unsigned_part(s: Seq<char>) -> Seq<char> {
    if s.len() > 0 && s[0] == '+' {
        s.subrange(1, s.len() as int)
    } else {
        s
    }
}

/// The text is a group key: one or more decimal digits, after a plus sign or
/// without one, that stand for a number of 64 bits.
pub open spec fn is_group_key(s: Seq<char>) -> bool {
    let digits = unsigned_part(s);
    &&& digits.len() > 0
    &&& forall|i: int| 0 <= i < digits.len() ==> is_digit(#[trigger] digits[i])
    &&& digits_value(digits) <= u64::MAX
}

/// The number that a group key stands for.
pub open spec fn group_key(s: Seq<char>) -> u64 {
    digits_value(unsigned_part(s)) as u64
}

/// Parses a group key by `str::parse` of the standard library for `u64`. The
/// parser takes decimal digits after an optional plus sign and nothing else,
/// and fails on no digits and on a number beyond 64 bits: the contract says
/// that the call succeeds on exactly these texts, with the number they stand
/// for. Nothing is said of the error.
#[verifier::external_body]
fn parse_group_key(text: &str) -> (key: Result<u64, ParseIntError>)
    ensures
        key is Ok <==> is_group_key(text@),
        key matches Ok(number) ==> number == group_key(text@),
{
    text.parse::<u64>()
}

/// Why the sets of a page could not all be taken in.
pub enum Fault {
    /// A set has not the form of a set.
    Format,
    /// The display identifier of a group is no group key.
    GroupKey,
}

/// The names and the match results while a page is taken in, and what went
/// wrong, if anything did.
pub struct Tally {
    pub names: Map<Seq<u8>, Seq<char>>,
    pub groups: Seq<(u64, Seq<Fixture>)>,
    pub fault: Option<Fault>,
}

/// The tally after one more set. After a fault nothing changes. A set of
/// another phase changes nothing. A match names its two players, first the
/// one and then the other, and is registered under the key of its group; if
/// the group has no key, the players are named and the fault is noted.
pub open spec fn after_set(t: Tally, node: Option<SetNode>) -> Tally {
    if t.fault is Some {
        t
    } else {
        match reading_of(node) {
            Reading::Malformed => Tally { fault: Some(Fault::Format), ..t },
            Reading::OtherPhase => t,
            Reading::Match { group, first, second } => {
                let names = t.names.insert(first.id, first.name).insert(second.id, second.name);
                if is_group_key(group) {
                    Tally {
                        names,
                        groups: ingested(t.groups, group_key(group), fixture_of(first, second)),
                        fault: None,
                    }
                } else {
                    Tally { names, groups: t.groups, fault: Some(Fault::GroupKey) }
                }
            },
        }
    }
}

/// The tally after the sets `nodes`, taken in their order.
pub open spec fn after_sets(t: Tally, nodes: Seq<Option<SetNode>>) -> Tally
    decreases nodes.len(),
{
    if nodes.len() == 0 {
        t
    } else {
        after_set(after_sets(t, nodes.drop_last()), nodes.last())
    }
}

/// What goes wrong with the set `node` taken alone.
pub open spec fn fault_of(node: Option<SetNode>) -> Option<Fault> {
    match reading_of(node) {
        Reading::Malformed => Some(Fault::Format),
        Reading::OtherPhase => None,
        Reading::Match { group, .. } => if is_group_key(group) {
            None
        } else {
            Some(Fault::GroupKey)
        },
    }
}

/// No set below `i` goes wrong.
pub open spec fn faultless_below(nodes: Seq<Option<SetNode>>, i: int) -> bool {
    forall|j: int| 0 <= j < i ==> fault_of(#[trigger] nodes[j]) is None
}

/// No match that is reached before a fault ends the page has the same
/// player on both sides.
pub open spec fn sound(nodes: Seq<Option<SetNode>>) -> bool {
    forall|i: int|
        0 <= i < nodes.len() && faultless_below(nodes, i) ==> (reading_of(
            #[trigger] nodes[i],
        ) matches Reading::Match { first, second, .. } ==> first.id != second.id)
}

/// The total number of pages and the sets that the data of an answer holds,
/// if it has the form of a page.
pub open spec fn page_of(data: ResponseData) -> Option<(i64, Seq<Option<SetNode>>)> {
    match data {
        ResponseData {
            event: Some(
                Event {
                    sets: Some(
                        Sets {
                            page_info: Some(PageInfo { total_pages: Some(total_pages) }),
                            nodes: Some(nodes),
                        },
                    ),
                },
            ),
        } => Some((total_pages, nodes@)),
        _ => None,
    }
}

/// The answer is taken as a refusal: it has errors, and no data or at least
/// one error.
pub open spec fn refused(
    data: Option<ResponseData>,
    errors: Option<Vec<graphql_client::Error>>,
) -> bool {
    match errors {
        Some(list) => data is None || list@.len() > 0,
        None => false,
    }
}

/// The sets of the answer, where it is no refusal and has the form of a page.
pub open spec fn sets_of(
    data: Option<ResponseData>,
    errors: Option<Vec<graphql_client::Error>>,
) -> Option<Seq<Option<SetNode>>> {
    match data {
        Some(d) => if refused(data, errors) {
            None
        } else {
            match page_of(d) {
                Some(page) => Some(page.1),
                None => None,
            }
        },
        None => None,
    }
}

/// Whether no match that is reached before a fault ends the page has the
/// same player on both sides.
pub fn sets_are_sound(nodes: &Vec<Option<SetNode>>) -> (ok: bool)
    ensures
        ok == sound(nodes@),
{
    let mut i: usize = 0;
    while i < nodes.len()
        invariant
            i <= nodes@.len(),
            faultless_below(nodes@, i as int),
            forall|j: int|
                0 <= j < i ==> (reading_of(#[trigger] nodes@[j]) matches Reading::Match {
                    first,
                    second,
                    ..
                } ==> first.id != second.id),
        decreases nodes@.len() - i,
    {
        match read_set(&nodes[i]) {
            SetReading::Malformed => {
                proof {
                    lemma_sound_upto(nodes@, i as int);
                }
                return true;
            },
            SetReading::OtherPhase => {},
            SetReading::Match { group, first, second } => {
                if first.id.same(&second.id) {
                    return false;
                }
                if parse_group_key(group.as_str()).is_err() {
                    proof {
                        lemma_sound_upto(nodes@, i as int);
                    }
                    return true;
                }
            },
        }
        i += 1;
    }
    true
}

/// Where the sets up to a faulty one are sound, all are: none behind the
/// faulty one is reached.
proof fn lemma_sound_upto(nodes: Seq<Option<SetNode>>, i: int)
    requires
        0 <= i < nodes.len(),
        fault_of(nodes[i]) is Some,
        forall|j: int|
            0 <= j <= i ==> (reading_of(#[trigger] nodes[j]) matches Reading::Match {
                first,
                second,
                ..
            } ==> first.id != second.id),
    ensures
        sound(nodes),
{
    assert forall|k: int| 0 <= k < nodes.len() && faultless_below(nodes, k) implies (reading_of(
        #[trigger] nodes[k],
    ) matches Reading::Match { first, second, .. } ==> first.id != second.id) by {
        if k > i {
            assert(fault_of(nodes[i]) is None);
        }
    }
}

/// Whether the answer is fit for [`process_page`]: its sets, if it is taken
/// as a page, are sound.
pub fn page_is_sound(
    data: &Option<ResponseData>,
    errors: &Option<Vec<graphql_client::Error>>,
) -> (ok: bool)
    ensures
        ok <==> (sets_of(*data, *errors) matches Some(nodes) ==> sound(nodes)),
{
    if let Some(list) = errors {
        if data.is_none() || list.len() > 0 {
            return true;
        }
    }
    let Some(d) = data else {
        return true;
    };
    let Some(event) = &d.event else {
        return true;
    };
    let Some(sets) = &event.sets else {
        return true;
    };
    let Some(page_info) = &sets.page_info else {
        return true;
    };
    if page_info.total_pages.is_none() {
        return true;
    }
    let Some(nodes) = &sets.nodes else {
        return true;
    };
    sets_are_sound(nodes)
}

/// Takes in one page of an answer of the service: names the players of its
/// matches in `player_names` and registers the matches in `scores`, and
/// gives the total number of pages.
///
/// An answer with errors and without data, or with at least one error, is
/// refused with its errors; one without data and without errors is refused
/// too. The data must have the form of a page. The sets are taken in their
/// order, and the first fault ends the page, with what came before it taken
/// in: see [`after_set`].
pub fn process_page(
    data: Option<ResponseData>,
    errors: Option<Vec<graphql_client::Error>>,
    player_names: &mut NameBook,
    scores: &mut MatchResultStore,
) -> (result: Result<i64, FeedError>)
    requires
        old(player_names).wf(),
        old(scores).wf(),
        sets_of(data, errors) matches Some(nodes) ==> sound(nodes),
    ensures
        final(player_names).wf(),
        final(scores).wf(),
        refused(data, errors) ==> result == Err::<i64, FeedError>(
            FeedError::GraphQL(errors.unwrap()),
        ),
        data is None && errors is None ==> result matches Err(FeedError::NoDataNoErrors),
        !refused(data, errors) && data is Some && page_of(data.unwrap()) is None
            ==> result matches Err(FeedError::ResponseFormat),
        sets_of(data, errors) is None ==> final(player_names)@ == old(player_names)@,
        sets_of(data, errors) is None ==> final(scores)@ == old(scores)@,
        sets_of(data, errors) matches Some(nodes) ==> {
            let t = after_sets(
                Tally { names: old(player_names)@, groups: old(scores)@, fault: None },
                nodes,
            );
            &&& final(player_names)@ == t.names
            &&& final(scores)@ == t.groups
            &&& match t.fault {
                None => result == Ok::<i64, FeedError>(page_of(data.unwrap()).unwrap().0),
                Some(Fault::Format) => result matches Err(FeedError::ResponseFormat),
                Some(Fault::GroupKey) => result matches Err(FeedError::ParseInt(_)),
            }
        },
{
    let page = match (data, errors) {
        (Some(page), Some(list)) => {
            if list.len() > 0 {
                return Err(FeedError::GraphQL(list));
            }
            page
        },
        (Some(page), None) => page,
        (None, Some(list)) => {
            return Err(FeedError::GraphQL(list));
        },
        (None, None) => {
            return Err(FeedError::NoDataNoErrors);
        },
    };
    let Some(event) = &page.event else {
        return Err(FeedError::ResponseFormat);
    };
    let Some(sets) = &event.sets else {
        return Err(FeedError::ResponseFormat);
    };
    let Some(page_info) = &sets.page_info else {
        return Err(FeedError::ResponseFormat);
    };
    let Some(total_pages) = page_info.total_pages else {
        return Err(FeedError::ResponseFormat);
    };
    let Some(nodes) = &sets.nodes else {
        return Err(FeedError::ResponseFormat);
    };
    let ghost start = Tally { names: player_names@, groups: scores@, fault: None };
    let mut i: usize = 0;
    while i < nodes.len()
        invariant
            i <= nodes@.len(),
            sets_of(data, errors) == Some(nodes@),
            page_of(data.unwrap()) == Some((total_pages, nodes@)),
            start == (Tally { names: old(player_names)@, groups: old(scores)@, fault: None }),
            player_names.wf(),
            scores.wf(),
            sound(nodes@),
            faultless_below(nodes@, i as int),
            after_sets(start, nodes@.take(i as int)) == (Tally {
                names: player_names@,
                groups: scores@,
                fault: None,
            }),
        decreases nodes@.len() - i,
    {
        proof {
            assert(nodes@.take(i + 1).drop_last() =~= nodes@.take(i as int));
            assert(nodes@.take(i + 1).last() == nodes@[i as int]);
        }
        match read_set(&nodes[i]) {
            SetReading::Malformed => {
                proof {
                    lemma_fault_ends(start, nodes@, i as int + 1);
                }
                return Err(FeedError::ResponseFormat);
            },
            SetReading::OtherPhase => {},
            SetReading::Match { group, first, second } => {
                let outcome = resolve(&first, &second);
                player_names.record(first.id.clone(), first.name);
                player_names.record(second.id.clone(), second.name);
                match parse_group_key(group.as_str()) {
                    Err(e) => {
                        proof {
                            lemma_fault_ends(start, nodes@, i as int + 1);
                        }
                        return Err(FeedError::ParseInt(e));
                    },
                    Ok(key) => {
                        proof {
                            lemma_precedes_total(first.id@, second.id@);
                            if precedes(first.id@, second.id@) {
                                lemma_precedes_asymmetric(first.id@, second.id@);
                            }
                        }
                        let pair = IdPair::new(first.id, second.id);
                        scores.ingest(key, pair, outcome);
                    },
                }
            },
        }
        i += 1;
    }
    proof {
        assert(nodes@.take(i as int) =~= nodes@);
    }
    Ok(total_pages)
}

/// After a fault the tally stays as it is, whatever sets follow.
proof fn lemma_fault_ends(start: Tally, nodes: Seq<Option<SetNode>>, i: int)
    requires
        0 <= i <= nodes.len(),
        after_sets(start, nodes.take(i)).fault is Some,
    ensures
        after_sets(start, nodes) == after_sets(start, nodes.take(i)),
    decreases nodes.len() - i,
{
    if i == nodes.len() {
        assert(nodes.take(i) =~= nodes);
    } else {
        assert(nodes.take(i + 1).drop_last() =~= nodes.take(i));
        assert(nodes.take(i + 1).last() == nodes[i]);
        lemma_fault_ends(start, nodes, i + 1);
    }
}

} // verus!

//! Three-way tie analysis for the round-robin group stage of a tournament.
//!
//! A group is a set of players in which each pair meets at most once. From the
//! matches already decided and those still pending, the library enumerates every
//! final win-count assignment that can still be reached and says whether a tie of
//! exactly three players on one win count is guaranteed, possible or impossible.
//!
//! Match results are taken in page by page ([`feed`]) into a store of groups
//! ([`store`]), each group a record of its pairs ([`record`], [`ids`]). The
//! players of a group ([`members`]) and the score vectors it can end on
//! ([`scores`], [`enumerate`]) are classified ([`classify`]) and written out
//! with the players' names ([`names`], [`text`], [`report`]). What holds of
//! enumeration and classification is stated and proved in [`laws`].

pub mod ids;
pub mod record;
pub mod members;
pub mod scores;
pub mod enumerate;
pub mod classify;
pub mod laws;
pub mod store;
pub mod names;
pub mod text;
pub mod report;
pub mod feed;

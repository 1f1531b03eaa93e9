//! Row types shared by the standings engine and its callers.
//!
//! These mirror the relational store one row per struct: reference data
//! (seasons, seats, points rules), raw race results, and the derived
//! standings rows that the engine produces.

use vstd::prelude::*;

verus! {

/// Sentinel code for a driver who did not start.
pub const DNS_CODE: i32 = 100;

/// Sentinel code for a driver who did not finish.
pub const DNF_CODE: i32 = 101;

/// Sentinel code for a disqualified driver.
pub const DSQ_CODE: i32 = 111;

/// A driver's outcome in a single race: either a classified finishing
/// position or one of the terminal outcomes. The store keeps a single
/// integer column and encodes the terminal outcomes as sentinel codes.
#[derive(Debug, Clone, Copy, PartialEq, Eq, Structural)]
pub enum Position {
    Finished(i32),
    Dnf,
    Dsq,
    Dns,
}

/// The outcome encoded by a raw position code.
pub open spec fn position_from_code(code: i32) -> Position {
    if code == DNF_CODE {
        Position::Dnf
    } else if code == DSQ_CODE {
        Position::Dsq
    } else if code == DNS_CODE {
        Position::Dns
    } else {
        Position::Finished(code)
    }
}

/// The raw code an outcome is stored under.
pub open spec fn position_code(p: Position) -> i32 {
    match p {
        Position::Finished(pos) => pos,
        Position::Dnf => DNF_CODE,
        Position::Dsq => DSQ_CODE,
        Position::Dns => DNS_CODE,
    }
}

impl Position {
    /// Decodes a raw position column value into an outcome.
    pub fn new(position: i32) -> (r: Self)
        ensures
            r == position_from_code(position),
    {
        match position {
            101 => Position::Dnf,
            111 => Position::Dsq,
            100 => Position::Dns,
            _ => Position::Finished(position),
        }
    }

    /// Encodes the outcome back into its raw column value.
    pub fn code(&self) -> (r: i32)
        ensures
            r == position_code(*self),
    {
        match *self {
            Position::Finished(pos) => pos,
            Position::Dnf => DNF_CODE,
            Position::Dsq => DSQ_CODE,
            Position::Dns => DNS_CODE,
        }
    }
}

/// Encoding then decoding an outcome gives the outcome back, as long as a
/// classified position does not collide with one of the sentinel codes.
pub proof fn lemma_position_code_round_trip(p: Position)
    requires
        forall|pos: i32|
            p == Position::Finished(pos) ==> pos != DNS_CODE && pos != DNF_CODE && pos != DSQ_CODE,
    ensures
        position_from_code(position_code(p)) == p,
{
}

impl From<i32> for Position {
    fn from(value: i32) -> (r: Self) {
        Position::new(value)
    }
}

impl vstd::std_specs::convert::FromSpecImpl<i32> for Position {
    open spec fn obeys_from_spec() -> bool {
        true
    }

    open spec fn from_spec(value: i32) -> Self {
        position_from_code(value)
    }
}

/// A team as the store keeps it.
#[derive(Debug, Clone)]
pub struct Team {
    pub team_id: i32,
    pub name: String,
    pub color: Option<String>,
}

/// One driver's outcome in one race, joined with its points value, as the
/// per-driver profile queries return it.
#[derive(Debug, Clone)]
pub struct RaceResult {
    pub position: Position,
    pub bot_result: bool,
    pub pole: bool,
    pub leading_lap: bool,
    pub fastest_lap: bool,
    pub qualy_result: Option<i32>,
    pub season: i32,
    pub race_id: i32,
    pub race_name: String,
    pub points: i32,
}

/// A driver's assignment to a team for a stretch of a season, together with
/// the results credited to it, as the profile queries assemble it.
#[derive(Debug, Clone)]
pub struct Seat {
    pub seat_id: i32,
    pub results: Vec<RaceResult>,
    pub team: Team,
}

/// A season's identity row.
#[derive(Debug, Clone)]
pub struct Season {
    pub season: i32,
    pub season_name: String,
}

/// One driver's persisted standing in one season, as the per-driver queries
/// return it.
#[derive(Debug, Clone, Copy, PartialEq, Eq, Structural)]
pub struct SeasonResult {
    pub driver_result: i32,
    pub team_result: i32,
    pub season: i32,
}

/// A race's identity row.
#[derive(Debug, Clone)]
pub struct RaceInfo {
    pub race_name: String,
    pub season: i32,
    pub race_id: i32,
}

/// A season's recomputation state: `finished` says no more races will be
/// added, `requires_recalc` says the persisted standings are stale.
#[derive(Debug, Clone, Copy, PartialEq, Eq, Structural)]
pub struct SeasonState {
    pub season: i32,
    pub finished: bool,
    pub requires_recalc: bool,
}

/// A seat's attribution: which driver holds it and for which team.
#[derive(Debug, Clone, Copy, PartialEq, Eq, Structural)]
pub struct SeatAssignment {
    pub seat_id: i32,
    pub driver_id: i32,
    pub team_id: i32,
}

/// A raw race-result row as the engine reads it: the outcome and bonus
/// flags that select a points rule, and the seat the result is credited to.
#[derive(Debug, Clone, Copy)]
pub struct ResultRow {
    pub result_id: i32,
    pub seat_id: i32,
    pub season: i32,
    pub position: Position,
    pub pole: bool,
    pub leading_lap: bool,
    pub fastest_lap: bool,
    pub bot_result: bool,
    pub qualy_result: Option<i32>,
}

/// One row of the static points reference table: the points value awarded
/// for a given outcome and bonus-flag combination in a given season.
#[derive(Debug, Clone, Copy, PartialEq, Eq, Structural)]
pub struct PointsRule {
    pub season: i32,
    pub position: Position,
    pub pole: bool,
    pub leading_lap: bool,
    pub fastest_lap: bool,
    pub points: i32,
}

/// One derived standings row: a driver's rank in a season, together with
/// the rank of the team the driver is credited to. Produced only by the
/// engine and replaced wholesale on every recomputation.
#[derive(Debug, Clone, Copy, PartialEq, Eq, Structural)]
pub struct StandingRow {
    pub driver_id: i32,
    pub driver_result: i32,
    pub team_result: i32,
    pub season: i32,
}

} // verus!

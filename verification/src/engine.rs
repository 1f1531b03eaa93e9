//! The season-standings recomputation engine.
//!
//! One cycle scans for finished seasons whose standings are stale, joins
//! each of their raw race results with its seat and its points rule, sums
//! points per driver and per team, ranks both deterministically, and emits
//! the full replacement standings together with the identifiers of the
//! seasons that were processed. The caller runs the cycle's storage round
//! trips in a single transaction: it reads the inputs, writes the emitted
//! rows with [`replace_season`] semantics, and clears the dirty flag of
//! exactly the processed seasons. Any error aborts the whole cycle, so
//! nothing is partially committed and the flags stay set for a retry.

use vstd::prelude::*;

use crate::aggregate::accumulate;
use crate::aggregate::best_entry;
use crate::aggregate::index_of_id;
use crate::aggregate::lemma_accumulate_props;
use crate::aggregate::lemma_index_of_id;
use crate::aggregate::spec_accumulate;
use crate::aggregate::spec_best_entry;
use crate::aggregate::spec_index_of_id;
use crate::aggregate::ScoredRow;
use crate::aggregate::ScoreEntry;
use crate::ranking::lemma_rank_sort_props;
use crate::ranking::rank_sort;
use crate::ranking::spec_rank_sort;
use crate::records::PointsRule;
use crate::records::ResultRow;
use crate::records::SeasonState;
use crate::records::SeatAssignment;
use crate::records::StandingRow;

verus! {

/// A data-integrity failure that aborts a recomputation cycle: the season
/// whose results raised it keeps its dirty flag, and nothing is committed.
#[derive(Debug, Clone, Copy, PartialEq, Eq, Structural)]
pub enum EngineError {
    /// A scored result is credited to a seat that no assignment resolves
    /// to a driver and team.
    UnassignedSeat { seat_id: i32 },
    /// A result's outcome and bonus flags match no points rule of its
    /// season.
    MissingPointsRule { result_id: i32 },
}

/// The first assignment for a seat, if any.
pub open spec fn spec_find_seat(seats: Seq<SeatAssignment>, seat_id: i32) -> Option<SeatAssignment>
    decreases seats.len(),
{
    if seats.len() == 0 {
        None
    } else if seats[0].seat_id == seat_id {
        Some(seats[0])
    } else {
        spec_find_seat(seats.skip(1), seat_id)
    }
}

/// Resolves a seat to its assignment.
pub fn find_seat(seats: &Vec<SeatAssignment>, seat_id: i32) -> (r: Option<SeatAssignment>)
    ensures
        r == spec_find_seat(seats@, seat_id),
{
    let mut k: usize = 0;
    proof {
        assert(seats@.skip(0) =~= seats@);
    }
    while k < seats.len()
        invariant
            k <= seats@.len(),
            spec_find_seat(seats@, seat_id) == spec_find_seat(seats@.skip(k as int), seat_id),
        decreases seats@.len() - k,
    {
        proof {
            assert(seats@.skip(k as int)[0] == seats@[k as int]);
            assert(seats@.skip(k as int).skip(1) =~= seats@.skip(k as int + 1));
        }
        if seats[k].seat_id == seat_id {
            return Some(seats[k]);
        }
        k = k + 1;
    }
    proof {
        assert(seats@.skip(k as int).len() == 0);
    }
    None
}

/// Whether a rule's key matches a result's season, outcome and bonus
/// flags.
pub open spec fn rule_matches(rule: PointsRule, season: i32, row: ResultRow) -> bool {
    rule.season == season && rule.position == row.position && rule.pole == row.pole
        && rule.leading_lap == row.leading_lap && rule.fastest_lap == row.fastest_lap
}

/// The points value of the first rule matching a result, if any.
pub open spec fn spec_lookup_points(rules: Seq<PointsRule>, season: i32, row: ResultRow) -> Option<
    i32,
>
    decreases rules.len(),
{
    if rules.len() == 0 {
        None
    } else if rule_matches(rules[0], season, row) {
        Some(rules[0].points)
    } else {
        spec_lookup_points(rules.skip(1), season, row)
    }
}

/// Looks a result's points value up in the rules table.
pub fn lookup_points(rules: &Vec<PointsRule>, season: i32, row: &ResultRow) -> (r: Option<i32>)
    ensures
        r == spec_lookup_points(rules@, season, *row),
{
    let mut k: usize = 0;
    proof {
        assert(rules@.skip(0) =~= rules@);
    }
    while k < rules.len()
        invariant
            k <= rules@.len(),
            spec_lookup_points(rules@, season, *row) == spec_lookup_points(
                rules@.skip(k as int),
                season,
                *row,
            ),
        decreases rules@.len() - k,
    {
        proof {
            assert(rules@.skip(k as int)[0] == rules@[k as int]);
            assert(rules@.skip(k as int).skip(1) =~= rules@.skip(k as int + 1));
        }
        let rule: PointsRule = rules[k];
        if rule.season == season && rule.position == row.position && rule.pole == row.pole
            && rule.leading_lap == row.leading_lap && rule.fastest_lap == row.fastest_lap {
            return Some(rule.points);
        }
        k = k + 1;
    }
    proof {
        assert(rules@.skip(k as int).len() == 0);
    }
    None
}

/// One season's results joined with their seats and points rules, in row
/// order. The first failing row's error aborts the season: a result on a
/// seat without an assignment, or one whose flags match no rule, is a
/// data-integrity error, never silently skipped.
pub open spec fn spec_score(
    rows: Seq<ResultRow>,
    season: i32,
    rules: Seq<PointsRule>,
    seats: Seq<SeatAssignment>,
) -> Result<Seq<ScoredRow>, EngineError>
    decreases rows.len(),
{
    if rows.len() == 0 {
        Ok(Seq::empty())
    } else {
        match spec_score(rows.drop_last(), season, rules, seats) {
            Err(e) => Err(e),
            Ok(prefix) => {
                let row = rows.last();
                if row.season != season {
                    Ok(prefix)
                } else {
                    match spec_find_seat(seats, row.seat_id) {
                        None => Err(EngineError::UnassignedSeat { seat_id: row.seat_id }),
                        Some(sa) => match spec_lookup_points(rules, season, row) {
                            None => Err(EngineError::MissingPointsRule { result_id: row.result_id }),
                            Some(p) => Ok(
                                prefix.push(
                                    ScoredRow {
                                        driver_id: sa.driver_id,
                                        team_id: sa.team_id,
                                        points: p,
                                    },
                                ),
                            ),
                        },
                    }
                }
            },
        }
    }
}

/// A failure among the first rows decides the whole scoring.
pub proof fn lemma_score_err_persists(
    rows: Seq<ResultRow>,
    season: i32,
    rules: Seq<PointsRule>,
    seats: Seq<SeatAssignment>,
    n: int,
)
    requires
        0 <= n <= rows.len(),
        spec_score(rows.take(n), season, rules, seats) is Err,
    ensures
        spec_score(rows, season, rules, seats) == spec_score(rows.take(n), season, rules, seats),
    decreases rows.len() - n,
{
    if n == rows.len() {
        assert(rows.take(n) =~= rows);
    } else {
        assert(rows.take(n + 1).drop_last() =~= rows.take(n));
        lemma_score_err_persists(rows, season, rules, seats, n + 1);
    }
}

/// Scoring succeeds with at most one scored row per input row.
pub proof fn lemma_score_len(
    rows: Seq<ResultRow>,
    season: i32,
    rules: Seq<PointsRule>,
    seats: Seq<SeatAssignment>,
    scored: Seq<ScoredRow>,
)
    requires
        spec_score(rows, season, rules, seats) == Ok::<Seq<ScoredRow>, EngineError>(scored),
    ensures
        scored.len() <= rows.len(),
    decreases rows.len(),
{
    if rows.len() > 0 {
        match spec_score(rows.drop_last(), season, rules, seats) {
            Err(e) => {},
            Ok(prefix) => {
                lemma_score_len(rows.drop_last(), season, rules, seats, prefix);
            },
        }
    }
}

/// Joins one season's result rows with their seats and points rules.
pub fn score_rows(
    rows: &Vec<ResultRow>,
    season: i32,
    rules: &Vec<PointsRule>,
    seats: &Vec<SeatAssignment>,
) -> (r: Result<Vec<ScoredRow>, EngineError>)
    ensures
        r matches Ok(v) ==> spec_score(rows@, season, rules@, seats@) == Ok::<
            Seq<ScoredRow>,
            EngineError,
        >(v@) && v@.len() <= rows@.len(),
        r matches Err(e) ==> spec_score(rows@, season, rules@, seats@) == Err::<
            Seq<ScoredRow>,
            EngineError,
        >(e),
{
    let mut scored: Vec<ScoredRow> = Vec::new();
    let mut i: usize = 0;
    while i < rows.len()
        invariant
            i <= rows@.len(),
            scored@.len() <= i,
            spec_score(rows@.take(i as int), season, rules@, seats@) == Ok::<
                Seq<ScoredRow>,
                EngineError,
            >(scored@),
        decreases rows@.len() - i,
    {
        proof {
            assert(rows@.take(i as int + 1).drop_last() =~= rows@.take(i as int));
            assert(rows@.take(i as int + 1).last() == rows@[i as int]);
        }
        let row: ResultRow = rows[i];
        if row.season == season {
            match find_seat(seats, row.seat_id) {
                None => {
                    proof {
                        lemma_score_err_persists(rows@, season, rules@, seats@, i as int + 1);
                    }
                    return Err(EngineError::UnassignedSeat { seat_id: row.seat_id });
                },
                Some(sa) => {
                    match lookup_points(rules, season, &row) {
                        None => {
                            proof {
                                lemma_score_err_persists(
                                    rows@,
                                    season,
                                    rules@,
                                    seats@,
                                    i as int + 1,
                                );
                            }
                            return Err(EngineError::MissingPointsRule { result_id: row.result_id });
                        },
                        Some(p) => {
                            scored.push(
                                ScoredRow { driver_id: sa.driver_id, team_id: sa.team_id, points: p },
                            );
                        },
                    }
                },
            }
        }
        i = i + 1;
    }
    proof {
        assert(rows@.take(rows@.len() as int) =~= rows@);
    }
    Ok(scored)
}

/// The `(driver, points)` item of every scored row, in order.
pub open spec fn spec_driver_items(s: Seq<ScoredRow>) -> Seq<(i32, i32)>
    decreases s.len(),
{
    if s.len() == 0 {
        Seq::empty()
    } else {
        spec_driver_items(s.drop_last()).push((s.last().driver_id, s.last().points))
    }
}

/// The `(team, points)` item of every scored row, in order.
pub open spec fn spec_team_items(s: Seq<ScoredRow>) -> Seq<(i32, i32)>
    decreases s.len(),
{
    if s.len() == 0 {
        Seq::empty()
    } else {
        spec_team_items(s.drop_last()).push((s.last().team_id, s.last().points))
    }
}

/// Both item sequences pair the rows one for one.
pub proof fn lemma_items_len(s: Seq<ScoredRow>)
    ensures
        spec_driver_items(s).len() == s.len(),
        spec_team_items(s).len() == s.len(),
    decreases s.len(),
{
    if s.len() > 0 {
        lemma_items_len(s.drop_last());
    }
}

/// Maps scored rows to their `(driver, points)` items.
fn driver_items(scored: &Vec<ScoredRow>) -> (items: Vec<(i32, i32)>)
    ensures
        items@ == spec_driver_items(scored@),
        items@.len() == scored@.len(),
{
    let mut items: Vec<(i32, i32)> = Vec::new();
    let mut i: usize = 0;
    while i < scored.len()
        invariant
            i <= scored@.len(),
            items@.len() == i,
            items@ == spec_driver_items(scored@.take(i as int)),
        decreases scored@.len() - i,
    {
        proof {
            assert(scored@.take(i as int + 1).drop_last() =~= scored@.take(i as int));
            assert(scored@.take(i as int + 1).last() == scored@[i as int]);
        }
        items.push((scored[i].driver_id, scored[i].points));
        i = i + 1;
    }
    proof {
        assert(scored@.take(scored@.len() as int) =~= scored@);
    }
    items
}

/// Maps scored rows to their `(team, points)` items.
fn team_items(scored: &Vec<ScoredRow>) -> (items: Vec<(i32, i32)>)
    ensures
        items@ == spec_team_items(scored@),
        items@.len() == scored@.len(),
{
    let mut items: Vec<(i32, i32)> = Vec::new();
    let mut i: usize = 0;
    while i < scored.len()
        invariant
            i <= scored@.len(),
            items@.len() == i,
            items@ == spec_team_items(scored@.take(i as int)),
        decreases scored@.len() - i,
    {
        proof {
            assert(scored@.take(i as int + 1).drop_last() =~= scored@.take(i as int));
            assert(scored@.take(i as int + 1).last() == scored@[i as int]);
        }
        items.push((scored[i].team_id, scored[i].points));
        i = i + 1;
    }
    proof {
        assert(scored@.take(scored@.len() as int) =~= scored@);
    }
    items
}

/// The scored rows credited to one driver, in order.
pub open spec fn spec_rows_for_driver(s: Seq<ScoredRow>, driver_id: i32) -> Seq<ScoredRow>
    decreases s.len(),
{
    if s.len() == 0 {
        Seq::empty()
    } else {
        let prev = spec_rows_for_driver(s.drop_last(), driver_id);
        if s.last().driver_id == driver_id {
            prev.push(s.last())
        } else {
            prev
        }
    }
}

/// Filters the scored rows credited to one driver.
fn rows_for_driver(scored: &Vec<ScoredRow>, driver_id: i32) -> (rows: Vec<ScoredRow>)
    ensures
        rows@ == spec_rows_for_driver(scored@, driver_id),
        rows@.len() <= scored@.len(),
{
    let mut rows: Vec<ScoredRow> = Vec::new();
    let mut i: usize = 0;
    while i < scored.len()
        invariant
            i <= scored@.len(),
            rows@.len() <= i,
            rows@ == spec_rows_for_driver(scored@.take(i as int), driver_id),
        decreases scored@.len() - i,
    {
        proof {
            assert(scored@.take(i as int + 1).drop_last() =~= scored@.take(i as int));
            assert(scored@.take(i as int + 1).last() == scored@[i as int]);
        }
        if scored[i].driver_id == driver_id {
            rows.push(scored[i]);
        }
        i = i + 1;
    }
    proof {
        assert(scored@.take(scored@.len() as int) =~= scored@);
    }
    rows
}

/// The team a driver's season points are credited to: of the teams whose
/// seats the driver scored from, the one holding the driver's largest
/// points contribution, ties going to the greater team identifier. This
/// replaces attribution by an unordered aggregate with a fixed, documented
/// rule, so repeated runs agree. `None` exactly when the driver has no
/// scored row.
pub open spec fn spec_attributed_team(s: Seq<ScoredRow>, driver_id: i32) -> Option<i32> {
    match spec_best_entry(
        spec_accumulate(spec_team_items(spec_rows_for_driver(s, driver_id))),
    ) {
        Some(e) => Some(e.id),
        None => None,
    }
}

/// Resolves the team a driver's season points are credited to.
pub fn attributed_team(scored: &Vec<ScoredRow>, driver_id: i32) -> (r: Option<i32>)
    requires
        scored@.len() <= 0x7fff_ffff,
    ensures
        r == spec_attributed_team(scored@, driver_id),
{
    let mine = rows_for_driver(scored, driver_id);
    let items = team_items(&mine);
    let totals = accumulate(&items);
    match best_entry(&totals) {
        Some(e) => Some(e.id),
        None => None,
    }
}

/// A driver's standings row as `spec_build` lays it out: the rank is the
/// position in the ranked driver list, the team rank the position of the
/// attributed team in the ranked team list. The zero fall-backs are never
/// reached on engine inputs: every ranked driver has a scored row, so a
/// team is attributed and holds a ranked total, as the laws module's
/// `lemma_team_ranks_genuine` proves.
pub open spec fn spec_team_rank(
    teams: Seq<ScoreEntry>,
    scored: Seq<ScoredRow>,
    driver_id: i32,
) -> i32 {
    match spec_attributed_team(scored, driver_id) {
        Some(t) => match spec_index_of_id(teams, t) {
            Some(j) => (j + 1) as i32,
            None => 0,
        },
        None => 0,
    }
}

/// The standings rows for ranked driver totals: one row per driver, ranks
/// following the list positions.
pub open spec fn spec_build(
    drivers: Seq<ScoreEntry>,
    scored: Seq<ScoredRow>,
    teams: Seq<ScoreEntry>,
    season: i32,
) -> Seq<StandingRow>
    decreases drivers.len(),
{
    if drivers.len() == 0 {
        Seq::empty()
    } else {
        spec_build(drivers.drop_last(), scored, teams, season).push(
            StandingRow {
                driver_id: drivers.last().id,
                driver_result: drivers.len() as i32,
                team_result: spec_team_rank(teams, scored, drivers.last().id),
                season,
            },
        )
    }
}

/// `spec_build` writes one row per ranked driver, rank equal to position
/// plus one.
pub proof fn lemma_build_rows(
    drivers: Seq<ScoreEntry>,
    scored: Seq<ScoredRow>,
    teams: Seq<ScoreEntry>,
    season: i32,
)
    ensures
        spec_build(drivers, scored, teams, season).len() == drivers.len(),
        forall|i: int|
            0 <= i < drivers.len() ==> #[trigger] spec_build(drivers, scored, teams, season)[i]
                == (StandingRow {
                driver_id: drivers[i].id,
                driver_result: (i + 1) as i32,
                team_result: spec_team_rank(teams, scored, drivers[i].id),
                season,
            }),
    decreases drivers.len(),
{
    if drivers.len() > 0 {
        lemma_build_rows(drivers.drop_last(), scored, teams, season);
        assert(forall|k: int|
            0 <= k < drivers.len() - 1 ==> drivers.drop_last()[k] == drivers[k]);
    }
}

/// Builds the standings rows for ranked driver and team totals.
fn build_standings(
    drivers: &Vec<ScoreEntry>,
    scored: &Vec<ScoredRow>,
    teams: &Vec<ScoreEntry>,
    season: i32,
) -> (out: Vec<StandingRow>)
    requires
        drivers@.len() <= 0x7fff_ffff,
        scored@.len() <= 0x7fff_ffff,
        teams@.len() <= 0x7fff_ffff,
    ensures
        out@ == spec_build(drivers@, scored@, teams@, season),
{
    let mut out: Vec<StandingRow> = Vec::new();
    let mut i: usize = 0;
    while i < drivers.len()
        invariant
            i <= drivers@.len(),
            drivers@.len() <= 0x7fff_ffff,
            scored@.len() <= 0x7fff_ffff,
            teams@.len() <= 0x7fff_ffff,
            out@ == spec_build(drivers@.take(i as int), scored@, teams@, season),
        decreases drivers@.len() - i,
    {
        proof {
            assert(drivers@.take(i as int + 1).drop_last() =~= drivers@.take(i as int));
            assert(drivers@.take(i as int + 1).last() == drivers@[i as int]);
        }
        let entry: ScoreEntry = drivers[i];
        let team_result: i32 = match attributed_team(scored, entry.id) {
            Some(t) => match index_of_id(teams, t) {
                Some(j) => {
                    proof {
                        lemma_index_of_id(teams@, t);
                    }
                    (j + 1) as i32
                },
                None => 0,
            },
            None => 0,
        };
        out.push(
            StandingRow {
                driver_id: entry.id,
                driver_result: (i + 1) as i32,
                team_result,
                season,
            },
        );
        i = i + 1;
    }
    proof {
        assert(drivers@.take(drivers@.len() as int) =~= drivers@);
    }
    out
}

/// One season's freshly ranked standings: `Ok` holds exactly one row per
/// driver with a scored result that season, ranked by descending points
/// with ascending driver identifier as tie-break, each row carrying the
/// rank of the driver's attributed team among the season's team totals.
pub open spec fn spec_season_standings(
    rows: Seq<ResultRow>,
    season: i32,
    rules: Seq<PointsRule>,
    seats: Seq<SeatAssignment>,
) -> Result<Seq<StandingRow>, EngineError> {
    match spec_score(rows, season, rules, seats) {
        Err(e) => Err(e),
        Ok(scored) => Ok(
            spec_build(
                spec_rank_sort(spec_accumulate(spec_driver_items(scored))),
                scored,
                spec_rank_sort(spec_accumulate(spec_team_items(scored))),
                season,
            ),
        ),
    }
}

/// Recomputes one season's standings from its raw results. The result
/// table must leave ranks and 64-bit point sums representable, which
/// caps it at `i32::MAX` rows — the store's own limit, since it keeps
/// ranks in a 32-bit column.
pub fn season_standings(
    rows: &Vec<ResultRow>,
    season: i32,
    rules: &Vec<PointsRule>,
    seats: &Vec<SeatAssignment>,
) -> (r: Result<Vec<StandingRow>, EngineError>)
    requires
        rows@.len() <= 0x7fff_ffff,
    ensures
        r matches Ok(v) ==> spec_season_standings(rows@, season, rules@, seats@) == Ok::<
            Seq<StandingRow>,
            EngineError,
        >(v@),
        r matches Err(e) ==> spec_season_standings(rows@, season, rules@, seats@) == Err::<
            Seq<StandingRow>,
            EngineError,
        >(e),
{
    let scored = match score_rows(rows, season, rules, seats) {
        Ok(scored) => scored,
        Err(e) => {
            return Err(e);
        },
    };
    let d_items = driver_items(&scored);
    let t_items = team_items(&scored);
    proof {
        lemma_accumulate_props(d_items@);
        lemma_accumulate_props(t_items@);
        lemma_rank_sort_props(spec_accumulate(d_items@));
        lemma_rank_sort_props(spec_accumulate(t_items@));
    }
    let driver_totals = accumulate(&d_items);
    let team_totals = accumulate(&t_items);
    let ranked_drivers = rank_sort(&driver_totals);
    let ranked_teams = rank_sort(&team_totals);
    Ok(build_standings(&ranked_drivers, &scored, &ranked_teams, season))
}

/// The identifiers of seasons that are finished and flagged stale, in
/// table order. Only these are recomputed, and only their flags may be
/// cleared afterwards.
pub open spec fn spec_dirty_seasons(seasons: Seq<SeasonState>) -> Seq<i32>
    decreases seasons.len(),
{
    if seasons.len() == 0 {
        Seq::empty()
    } else {
        let prev = spec_dirty_seasons(seasons.drop_last());
        if seasons.last().finished && seasons.last().requires_recalc {
            prev.push(seasons.last().season)
        } else {
            prev
        }
    }
}

/// Whether the table holds a finished, stale season with this identifier.
pub open spec fn spec_has_dirty_season(seasons: Seq<SeasonState>, id: i32) -> bool {
    exists|m: int|
        0 <= m < seasons.len() && seasons[m].finished && seasons[m].requires_recalc
            && seasons[m].season == id
}

/// The scan selects exactly the finished seasons flagged stale: a season
/// that is not finished is never selected, whatever its dirty flag says.
pub proof fn lemma_dirty_seasons_selected(seasons: Seq<SeasonState>)
    ensures
        forall|id: i32|
            #[trigger] spec_dirty_seasons(seasons).contains(id) <==> spec_has_dirty_season(
                seasons,
                id,
            ),
    decreases seasons.len(),
{
    if seasons.len() > 0 {
        let rest = seasons.drop_last();
        let last = seasons.last();
        let prev = spec_dirty_seasons(rest);
        let cur = spec_dirty_seasons(seasons);
        lemma_dirty_seasons_selected(rest);
        assert(forall|k: int| 0 <= k < seasons.len() - 1 ==> rest[k] == seasons[k]);
        assert forall|id: i32| cur.contains(id) <==> spec_has_dirty_season(seasons, id) by {
            if cur.contains(id) {
                let k = choose|k: int| 0 <= k < cur.len() && cur[k] == id;
                if k < prev.len() {
                    assert(prev[k] == id);
                    assert(prev.contains(id));
                    let m = choose|m: int|
                        0 <= m < rest.len() && rest[m].finished && rest[m].requires_recalc
                            && rest[m].season == id;
                    assert(seasons[m].finished && seasons[m].requires_recalc && seasons[m].season
                        == id);
                } else {
                    assert(last.finished && last.requires_recalc && last.season == id);
                    assert(seasons[seasons.len() - 1] == last);
                }
            }
            if spec_has_dirty_season(seasons, id) {
                let m = choose|m: int|
                    0 <= m < seasons.len() && seasons[m].finished && seasons[m].requires_recalc
                        && seasons[m].season == id;
                if m < seasons.len() - 1 {
                    assert(rest[m].finished && rest[m].requires_recalc && rest[m].season == id);
                    assert(spec_has_dirty_season(rest, id));
                    assert(prev.contains(id));
                    let k = choose|k: int| 0 <= k < prev.len() && prev[k] == id;
                    assert(cur[k] == id);
                    assert(cur.contains(id));
                } else {
                    assert(cur[cur.len() - 1] == id);
                    assert(cur.contains(id));
                }
            }
        }
    }
}

/// Scans the season table for finished seasons flagged stale.
pub fn dirty_seasons(seasons: &Vec<SeasonState>) -> (ids: Vec<i32>)
    ensures
        ids@ == spec_dirty_seasons(seasons@),
{
    let mut ids: Vec<i32> = Vec::new();
    let mut i: usize = 0;
    while i < seasons.len()
        invariant
            i <= seasons@.len(),
            ids@ == spec_dirty_seasons(seasons@.take(i as int)),
        decreases seasons@.len() - i,
    {
        proof {
            assert(seasons@.take(i as int + 1).drop_last() =~= seasons@.take(i as int));
            assert(seasons@.take(i as int + 1).last() == seasons@[i as int]);
        }
        let s: SeasonState = seasons[i];
        if s.finished && s.requires_recalc {
            ids.push(s.season);
        }
        i = i + 1;
    }
    proof {
        assert(seasons@.take(seasons@.len() as int) =~= seasons@);
    }
    ids
}

/// The concatenated fresh standings of the listed seasons, processed in
/// scan order; the first failing season's error aborts the whole cycle.
pub open spec fn spec_cycle_standings(
    dirty: Seq<i32>,
    rows: Seq<ResultRow>,
    rules: Seq<PointsRule>,
    seats: Seq<SeatAssignment>,
) -> Result<Seq<StandingRow>, EngineError>
    decreases dirty.len(),
{
    if dirty.len() == 0 {
        Ok(Seq::empty())
    } else {
        match spec_cycle_standings(dirty.drop_last(), rows, rules, seats) {
            Err(e) => Err(e),
            Ok(prefix) => match spec_season_standings(rows, dirty.last(), rules, seats) {
                Err(e) => Err(e),
                Ok(s) => Ok(prefix + s),
            },
        }
    }
}

/// A failure among the first seasons decides the whole cycle.
proof fn lemma_cycle_err_persists(
    dirty: Seq<i32>,
    rows: Seq<ResultRow>,
    rules: Seq<PointsRule>,
    seats: Seq<SeatAssignment>,
    n: int,
)
    requires
        0 <= n <= dirty.len(),
        spec_cycle_standings(dirty.take(n), rows, rules, seats) is Err,
    ensures
        spec_cycle_standings(dirty, rows, rules, seats) == spec_cycle_standings(
            dirty.take(n),
            rows,
            rules,
            seats,
        ),
    decreases dirty.len() - n,
{
    if n == dirty.len() {
        assert(dirty.take(n) =~= dirty);
    } else {
        assert(dirty.take(n + 1).drop_last() =~= dirty.take(n));
        lemma_cycle_err_persists(dirty, rows, rules, seats, n + 1);
    }
}

/// What one full recomputation cycle hands back on success: the
/// replacement standings of every processed season, and the identifiers
/// of exactly those seasons, whose dirty flags the caller then clears.
pub struct CycleOutcome {
    pub standings: Vec<StandingRow>,
    pub processed: Vec<i32>,
}

/// One full cycle over the season table: the fresh standings of every
/// finished season flagged stale, with the processed identifiers; any
/// season's failure is the cycle's failure, so the caller commits either
/// every season's replacement or none.
pub open spec fn spec_run_cycle(
    seasons: Seq<SeasonState>,
    rows: Seq<ResultRow>,
    rules: Seq<PointsRule>,
    seats: Seq<SeatAssignment>,
) -> Result<(Seq<StandingRow>, Seq<i32>), EngineError> {
    match spec_cycle_standings(spec_dirty_seasons(seasons), rows, rules, seats) {
        Err(e) => Err(e),
        Ok(standings) => Ok((standings, spec_dirty_seasons(seasons))),
    }
}

/// Runs one recomputation cycle over the season table. As with
/// [`season_standings`], the result table is capped at `i32::MAX` rows.
pub fn run_cycle(
    seasons: &Vec<SeasonState>,
    rows: &Vec<ResultRow>,
    rules: &Vec<PointsRule>,
    seats: &Vec<SeatAssignment>,
) -> (r: Result<CycleOutcome, EngineError>)
    requires
        rows@.len() <= 0x7fff_ffff,
    ensures
        r matches Ok(out) ==> spec_run_cycle(seasons@, rows@, rules@, seats@) == Ok::<
            (Seq<StandingRow>, Seq<i32>),
            EngineError,
        >((out.standings@, out.processed@)),
        r matches Err(e) ==> spec_run_cycle(seasons@, rows@, rules@, seats@) == Err::<
            (Seq<StandingRow>, Seq<i32>),
            EngineError,
        >(e),
{
    let dirty = dirty_seasons(seasons);
    let mut standings: Vec<StandingRow> = Vec::new();
    let mut i: usize = 0;
    while i < dirty.len()
        invariant
            i <= dirty@.len(),
            rows@.len() <= 0x7fff_ffff,
            dirty@ == spec_dirty_seasons(seasons@),
            spec_cycle_standings(dirty@.take(i as int), rows@, rules@, seats@) == Ok::<
                Seq<StandingRow>,
                EngineError,
            >(standings@),
        decreases dirty@.len() - i,
    {
        proof {
            assert(dirty@.take(i as int + 1).drop_last() =~= dirty@.take(i as int));
            assert(dirty@.take(i as int + 1).last() == dirty@[i as int]);
        }
        match season_standings(rows, dirty[i], rules, seats) {
            Ok(mut part) => {
                standings.append(&mut part);
            },
            Err(e) => {
                proof {
                    lemma_cycle_err_persists(dirty@, rows@, rules@, seats@, i as int + 1);
                }
                return Err(e);
            },
        }
        i = i + 1;
    }
    proof {
        assert(dirty@.take(dirty@.len() as int) =~= dirty@);
    }
    Ok(CycleOutcome { standings, processed: dirty })
}

/// The rows of every season but the replaced one, in table order.
pub open spec fn spec_retained_rows(table: Seq<StandingRow>, season: i32) -> Seq<StandingRow>
    decreases table.len(),
{
    if table.len() == 0 {
        Seq::empty()
    } else {
        let prev = spec_retained_rows(table.drop_last(), season);
        if table.last().season != season {
            prev.push(table.last())
        } else {
            prev
        }
    }
}

/// The table after one season's standings are replaced wholesale: every
/// other season's rows stand unchanged, and the replaced season's rows
/// are exactly the fresh ones. The caller commits this delete-and-insert
/// as one transaction, so a reader observes the table either before or
/// after the replace, never in between.
pub open spec fn spec_replace_season(
    table: Seq<StandingRow>,
    season: i32,
    fresh: Seq<StandingRow>,
) -> Seq<StandingRow> {
    spec_retained_rows(table, season) + fresh
}

/// Replaces one season's standings rows in a table value.
pub fn replace_season(
    table: &Vec<StandingRow>,
    season: i32,
    fresh: &Vec<StandingRow>,
) -> (out: Vec<StandingRow>)
    ensures
        out@ == spec_replace_season(table@, season, fresh@),
{
    let mut out: Vec<StandingRow> = Vec::new();
    let mut i: usize = 0;
    while i < table.len()
        invariant
            i <= table@.len(),
            out@ == spec_retained_rows(table@.take(i as int), season),
        decreases table@.len() - i,
    {
        proof {
            assert(table@.take(i as int + 1).drop_last() =~= table@.take(i as int));
            assert(table@.take(i as int + 1).last() == table@[i as int]);
        }
        if table[i].season != season {
            out.push(table[i]);
        }
        i = i + 1;
    }
    proof {
        assert(table@.take(table@.len() as int) =~= table@);
    }
    let mut j: usize = 0;
    while j < fresh.len()
        invariant
            j <= fresh@.len(),
            out@ == spec_retained_rows(table@, season) + fresh@.take(j as int),
        decreases fresh@.len() - j,
    {
        proof {
            assert((spec_retained_rows(table@, season) + fresh@.take(j as int)).push(
                fresh@[j as int],
            ) =~= spec_retained_rows(table@, season) + fresh@.take(j as int + 1));
        }
        out.push(fresh[j]);
        j = j + 1;
    }
    proof {
        assert(spec_retained_rows(table@, season) + fresh@.take(fresh@.len() as int)
            =~= spec_replace_season(table@, season, fresh@));
    }
    out
}

} // verus!

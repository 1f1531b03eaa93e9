//! The engine's stated guarantees, proved against its specification:
//! determinism of a cycle, completeness of the produced rows, totality of
//! ranks, tie-break stability, and the no-mixing shape of an atomic
//! replace.

use vstd::prelude::*;

use crate::aggregate::contains_id;
use crate::aggregate::items_have_id;
use crate::aggregate::lemma_accumulate_props;
use crate::aggregate::lemma_best_entry_member;
use crate::aggregate::lemma_index_of_id;
use crate::aggregate::spec_accumulate;
use crate::aggregate::spec_best_entry;
use crate::aggregate::spec_index_of_id;
use crate::aggregate::spec_points_sum;
use crate::aggregate::ScoredRow;
use crate::engine::lemma_build_rows;
use crate::engine::lemma_items_len;
use crate::engine::lemma_score_len;
use crate::engine::spec_attributed_team;
use crate::engine::spec_build;
use crate::engine::spec_driver_items;
use crate::engine::spec_find_seat;
use crate::engine::spec_rows_for_driver;
use crate::engine::spec_run_cycle;
use crate::engine::spec_score;
use crate::engine::spec_season_standings;
use crate::engine::spec_replace_season;
use crate::engine::spec_retained_rows;
use crate::engine::spec_team_items;
use crate::engine::EngineError;
use crate::ranking::entry_le;
use crate::ranking::lemma_rank_sort_props;
use crate::ranking::precedes;
use crate::ranking::ranked;
use crate::ranking::spec_rank_sort;
use crate::records::PointsRule;
use crate::records::ResultRow;
use crate::records::SeasonState;
use crate::records::SeatAssignment;
use crate::records::StandingRow;

verus! {

/// Whether some scored row is credited to the driver.
pub open spec fn spec_scored_has_driver(s: Seq<ScoredRow>, driver_id: i32) -> bool {
    exists|k: int| 0 <= k < s.len() && s[k].driver_id == driver_id
}

/// The driver a seat resolves to, if any assignment covers the seat.
pub open spec fn spec_seat_driver(seats: Seq<SeatAssignment>, seat_id: i32) -> Option<i32> {
    match spec_find_seat(seats, seat_id) {
        Some(sa) => Some(sa.driver_id),
        None => None,
    }
}

/// Whether the raw results credit at least one row of the season to the
/// driver.
pub open spec fn spec_rows_have_scoring_driver(
    rows: Seq<ResultRow>,
    season: i32,
    seats: Seq<SeatAssignment>,
    driver_id: i32,
) -> bool {
    exists|k: int|
        0 <= k < rows.len() && rows[k].season == season && spec_seat_driver(seats, rows[k].seat_id)
            == Some(driver_id)
}

/// Successful scoring keeps exactly the drivers that the season's raw
/// rows credit.
pub proof fn lemma_score_drivers(
    rows: Seq<ResultRow>,
    season: i32,
    rules: Seq<PointsRule>,
    seats: Seq<SeatAssignment>,
    scored: Seq<ScoredRow>,
)
    requires
        spec_score(rows, season, rules, seats) == Ok::<Seq<ScoredRow>, EngineError>(scored),
    ensures
        forall|d: i32|
            #[trigger] spec_scored_has_driver(scored, d) <==> spec_rows_have_scoring_driver(
                rows,
                season,
                seats,
                d,
            ),
    decreases rows.len(),
{
    if rows.len() > 0 {
        let rest = rows.drop_last();
        let row = rows.last();
        match spec_score(rest, season, rules, seats) {
            Err(e) => {
                assert(false);
            },
            Ok(prefix) => {
                lemma_score_drivers(rest, season, rules, seats, prefix);
                assert(forall|k: int| 0 <= k < rows.len() - 1 ==> rest[k] == rows[k]);
                assert forall|d: i32|
                    spec_scored_has_driver(scored, d) <==> spec_rows_have_scoring_driver(
                        rows,
                        season,
                        seats,
                        d,
                    ) by {
                    if row.season != season {
                        if spec_scored_has_driver(scored, d) {
                            let k = choose|k: int|
                                0 <= k < rest.len() && rest[k].season == season && spec_seat_driver(
                                    seats,
                                    rest[k].seat_id,
                                ) == Some(d);
                            assert(rows[k].season == season && spec_seat_driver(
                                seats,
                                rows[k].seat_id,
                            ) == Some(d));
                        }
                        if spec_rows_have_scoring_driver(rows, season, seats, d) {
                            let k = choose|k: int|
                                0 <= k < rows.len() && rows[k].season == season && spec_seat_driver(
                                    seats,
                                    rows[k].seat_id,
                                ) == Some(d);
                            assert(k < rows.len() - 1);
                            assert(rest[k].season == season && spec_seat_driver(
                                seats,
                                rest[k].seat_id,
                            ) == Some(d));
                            assert(spec_rows_have_scoring_driver(rest, season, seats, d));
                        }
                    } else {
                        let sa = spec_find_seat(seats, row.seat_id).unwrap();
                        if spec_scored_has_driver(scored, d) {
                            let k = choose|k: int|
                                0 <= k < scored.len() && scored[k].driver_id == d;
                            if k < prefix.len() {
                                assert(prefix[k].driver_id == d);
                                assert(spec_scored_has_driver(prefix, d));
                                let m = choose|m: int|
                                    0 <= m < rest.len() && rest[m].season == season
                                        && spec_seat_driver(seats, rest[m].seat_id) == Some(d);
                                assert(rows[m].season == season && spec_seat_driver(
                                    seats,
                                    rows[m].seat_id,
                                ) == Some(d));
                            } else {
                                assert(d == sa.driver_id);
                                assert(rows[rows.len() - 1] == row);
                                assert(spec_seat_driver(seats, row.seat_id) == Some(d));
                            }
                        }
                        if spec_rows_have_scoring_driver(rows, season, seats, d) {
                            let m = choose|m: int|
                                0 <= m < rows.len() && rows[m].season == season && spec_seat_driver(
                                    seats,
                                    rows[m].seat_id,
                                ) == Some(d);
                            if m < rows.len() - 1 {
                                assert(rest[m].season == season && spec_seat_driver(
                                    seats,
                                    rest[m].seat_id,
                                ) == Some(d));
                                assert(spec_rows_have_scoring_driver(rest, season, seats, d));
                                assert(spec_scored_has_driver(prefix, d));
                                let k = choose|k: int|
                                    0 <= k < prefix.len() && prefix[k].driver_id == d;
                                assert(scored[k].driver_id == d);
                            } else {
                                assert(d == sa.driver_id);
                                assert(scored[scored.len() - 1].driver_id == d);
                            }
                        }
                    }
                }
            },
        }
    }
}

/// The driver items carry exactly the scored rows' drivers.
pub proof fn lemma_driver_items_ids(s: Seq<ScoredRow>)
    ensures
        forall|d: i32|
            #[trigger] items_have_id(spec_driver_items(s), d) <==> spec_scored_has_driver(s, d),
    decreases s.len(),
{
    if s.len() > 0 {
        let rest = s.drop_last();
        let prev = spec_driver_items(rest);
        let cur = spec_driver_items(s);
        lemma_driver_items_ids(rest);
        assert(forall|k: int| 0 <= k < s.len() - 1 ==> rest[k] == s[k]);
        assert forall|d: i32| items_have_id(cur, d) <==> spec_scored_has_driver(s, d) by {
            if items_have_id(cur, d) {
                let k = choose|k: int| 0 <= k < cur.len() && cur[k].0 == d;
                if k < prev.len() {
                    assert(prev[k].0 == d);
                    assert(items_have_id(prev, d));
                    let m = choose|m: int| 0 <= m < rest.len() && rest[m].driver_id == d;
                    assert(s[m].driver_id == d);
                } else {
                    assert(s[s.len() - 1].driver_id == d);
                }
            }
            if spec_scored_has_driver(s, d) {
                let m = choose|m: int| 0 <= m < s.len() && s[m].driver_id == d;
                if m < s.len() - 1 {
                    assert(rest[m].driver_id == d);
                    assert(spec_scored_has_driver(rest, d));
                    assert(items_have_id(prev, d));
                    let k = choose|k: int| 0 <= k < prev.len() && prev[k].0 == d;
                    assert(cur[k].0 == d);
                } else {
                    assert(cur[cur.len() - 1].0 == d);
                }
                assert(items_have_id(cur, d));
            }
        }
    }
}

/// Determinism: one cycle is a function of its inputs alone, so running
/// the engine twice over unchanged seasons, results, rules and seats
/// produces identical standings and processes the same seasons.
pub proof fn lemma_cycle_deterministic(
    seasons: Seq<SeasonState>,
    rows: Seq<ResultRow>,
    rules: Seq<PointsRule>,
    seats: Seq<SeatAssignment>,
    first: Result<(Seq<StandingRow>, Seq<i32>), EngineError>,
    second: Result<(Seq<StandingRow>, Seq<i32>), EngineError>,
)
    requires
        first == spec_run_cycle(seasons, rows, rules, seats),
        second == spec_run_cycle(seasons, rows, rules, seats),
    ensures
        first == second,
{
}

/// Completeness: a successfully recomputed season holds exactly one
/// standings row for every driver the season's raw results credit a
/// scored row to, and none for any other driver.
pub proof fn lemma_standings_complete(
    rows: Seq<ResultRow>,
    season: i32,
    rules: Seq<PointsRule>,
    seats: Seq<SeatAssignment>,
    scored: Seq<ScoredRow>,
    out: Seq<StandingRow>,
)
    requires
        rows.len() <= 0x7fff_ffff,
        spec_score(rows, season, rules, seats) == Ok::<Seq<ScoredRow>, EngineError>(scored),
        spec_season_standings(rows, season, rules, seats) == Ok::<
            Seq<StandingRow>,
            EngineError,
        >(out),
    ensures
        forall|d: i32|
            (exists|i: int| 0 <= i < out.len() && (#[trigger] out[i]).driver_id == d)
                <==> spec_rows_have_scoring_driver(rows, season, seats, d),
        forall|i: int, j: int| 0 <= i < j < out.len() ==> out[i].driver_id != out[j].driver_id,
{
    let items = spec_driver_items(scored);
    let totals = spec_accumulate(items);
    let drivers = spec_rank_sort(totals);
    let teams = spec_rank_sort(spec_accumulate(spec_team_items(scored)));
    lemma_score_len(rows, season, rules, seats, scored);
    lemma_items_len(scored);
    lemma_accumulate_props(items);
    lemma_rank_sort_props(totals);
    lemma_build_rows(drivers, scored, teams, season);
    lemma_driver_items_ids(scored);
    lemma_score_drivers(rows, season, rules, seats, scored);
    assert(out == spec_build(drivers, scored, teams, season));
    assert(out.len() == drivers.len());
    assert forall|d: i32|
        (exists|i: int| 0 <= i < out.len() && (#[trigger] out[i]).driver_id == d)
            <==> spec_rows_have_scoring_driver(rows, season, seats, d) by {
        if exists|i: int| 0 <= i < out.len() && (#[trigger] out[i]).driver_id == d {
            let i = choose|i: int| 0 <= i < out.len() && (#[trigger] out[i]).driver_id == d;
            assert(drivers[i].id == d);
            assert(contains_id(drivers, d));
            assert(items_have_id(items, d));
            assert(spec_scored_has_driver(scored, d));
        }
        if spec_rows_have_scoring_driver(rows, season, seats, d) {
            assert(spec_scored_has_driver(scored, d));
            assert(items_have_id(items, d));
            assert(contains_id(drivers, d));
            let k = choose|k: int| 0 <= k < drivers.len() && drivers[k].id == d;
            assert(out[k].driver_id == d);
        }
    }
}

/// Rank totality: a successfully recomputed season's ranks are exactly
/// the contiguous sequence from one to the number of ranked drivers, with
/// no duplicates, ties in points notwithstanding.
pub proof fn lemma_ranks_contiguous(
    rows: Seq<ResultRow>,
    season: i32,
    rules: Seq<PointsRule>,
    seats: Seq<SeatAssignment>,
    scored: Seq<ScoredRow>,
    out: Seq<StandingRow>,
)
    requires
        rows.len() <= 0x7fff_ffff,
        spec_score(rows, season, rules, seats) == Ok::<Seq<ScoredRow>, EngineError>(scored),
        spec_season_standings(rows, season, rules, seats) == Ok::<
            Seq<StandingRow>,
            EngineError,
        >(out),
    ensures
        out.len() <= 0x7fff_ffff,
        forall|i: int| 0 <= i < out.len() ==> (#[trigger] out[i]).driver_result == i + 1,
        forall|r: int| 1 <= r <= out.len() ==> (#[trigger] out[r - 1]).driver_result == r,
        forall|i: int, j: int|
            0 <= i < j < out.len() ==> out[i].driver_result != out[j].driver_result,
{
    let items = spec_driver_items(scored);
    let totals = spec_accumulate(items);
    let drivers = spec_rank_sort(totals);
    let teams = spec_rank_sort(spec_accumulate(spec_team_items(scored)));
    lemma_score_len(rows, season, rules, seats, scored);
    lemma_items_len(scored);
    lemma_accumulate_props(items);
    lemma_rank_sort_props(totals);
    lemma_build_rows(drivers, scored, teams, season);
    assert(out == spec_build(drivers, scored, teams, season));
    assert(drivers.len() <= rows.len());
    assert forall|i: int| 0 <= i < out.len() implies (#[trigger] out[i]).driver_result == i
        + 1 by {
        assert(out[i].driver_result == (i + 1) as i32);
    }
    assert forall|r: int| 1 <= r <= out.len() implies (#[trigger] out[r - 1]).driver_result
        == r by {
        assert(out[r - 1].driver_result == ((r - 1) + 1) as i32);
    }
}

/// The primary ranking key: a driver with strictly more summed season
/// points always takes a better rank.
pub proof fn lemma_points_order(
    rows: Seq<ResultRow>,
    season: i32,
    rules: Seq<PointsRule>,
    seats: Seq<SeatAssignment>,
    scored: Seq<ScoredRow>,
    out: Seq<StandingRow>,
    i: int,
    j: int,
)
    requires
        rows.len() <= 0x7fff_ffff,
        spec_score(rows, season, rules, seats) == Ok::<Seq<ScoredRow>, EngineError>(scored),
        spec_season_standings(rows, season, rules, seats) == Ok::<
            Seq<StandingRow>,
            EngineError,
        >(out),
        0 <= i < out.len(),
        0 <= j < out.len(),
        spec_points_sum(spec_driver_items(scored), out[i].driver_id) > spec_points_sum(
            spec_driver_items(scored),
            out[j].driver_id,
        ),
    ensures
        out[i].driver_result < out[j].driver_result,
{
    let items = spec_driver_items(scored);
    let totals = spec_accumulate(items);
    let drivers = spec_rank_sort(totals);
    let teams = spec_rank_sort(spec_accumulate(spec_team_items(scored)));
    lemma_score_len(rows, season, rules, seats, scored);
    lemma_items_len(scored);
    lemma_accumulate_props(items);
    lemma_rank_sort_props(totals);
    lemma_build_rows(drivers, scored, teams, season);
    assert(out == spec_build(drivers, scored, teams, season));
    assert(drivers.len() <= rows.len());
    assert(out[i].driver_id == drivers[i].id);
    assert(out[j].driver_id == drivers[j].id);
    assert(drivers.contains(drivers[i]));
    assert(drivers.contains(drivers[j]));
    assert(totals.contains(drivers[i]));
    assert(totals.contains(drivers[j]));
    let ki = choose|k: int| 0 <= k < totals.len() && totals[k] == drivers[i];
    let kj = choose|k: int| 0 <= k < totals.len() && totals[k] == drivers[j];
    assert(totals[ki].points == spec_points_sum(items, totals[ki].id));
    assert(totals[kj].points == spec_points_sum(items, totals[kj].id));
    assert(drivers[i].points > drivers[j].points);
    if j <= i {
        assert(ranked(drivers));
        assert(entry_le(drivers[j], drivers[i]) || j == i);
        assert(false);
    }
    assert(out[i].driver_result == (i + 1) as i32);
    assert(out[j].driver_result == (j + 1) as i32);
}

/// Tie-break stability: of two drivers with equal summed season points,
/// the one with the smaller identifier always takes the better rank.
pub proof fn lemma_tie_break(
    rows: Seq<ResultRow>,
    season: i32,
    rules: Seq<PointsRule>,
    seats: Seq<SeatAssignment>,
    scored: Seq<ScoredRow>,
    out: Seq<StandingRow>,
    i: int,
    j: int,
)
    requires
        rows.len() <= 0x7fff_ffff,
        spec_score(rows, season, rules, seats) == Ok::<Seq<ScoredRow>, EngineError>(scored),
        spec_season_standings(rows, season, rules, seats) == Ok::<
            Seq<StandingRow>,
            EngineError,
        >(out),
        0 <= i < out.len(),
        0 <= j < out.len(),
        spec_points_sum(spec_driver_items(scored), out[i].driver_id) == spec_points_sum(
            spec_driver_items(scored),
            out[j].driver_id,
        ),
        out[i].driver_id < out[j].driver_id,
    ensures
        out[i].driver_result < out[j].driver_result,
{
    let items = spec_driver_items(scored);
    let totals = spec_accumulate(items);
    let drivers = spec_rank_sort(totals);
    let teams = spec_rank_sort(spec_accumulate(spec_team_items(scored)));
    lemma_score_len(rows, season, rules, seats, scored);
    lemma_items_len(scored);
    lemma_accumulate_props(items);
    lemma_rank_sort_props(totals);
    lemma_build_rows(drivers, scored, teams, season);
    assert(out == spec_build(drivers, scored, teams, season));
    assert(drivers.len() <= rows.len());
    assert(out[i].driver_id == drivers[i].id);
    assert(out[j].driver_id == drivers[j].id);
    assert(drivers.contains(drivers[i]));
    assert(drivers.contains(drivers[j]));
    assert(totals.contains(drivers[i]));
    assert(totals.contains(drivers[j]));
    let ki = choose|k: int| 0 <= k < totals.len() && totals[k] == drivers[i];
    let kj = choose|k: int| 0 <= k < totals.len() && totals[k] == drivers[j];
    assert(totals[ki].points == spec_points_sum(items, totals[ki].id));
    assert(totals[kj].points == spec_points_sum(items, totals[kj].id));
    assert(drivers[i].points == drivers[j].points);
    assert(i != j);
    if j < i {
        assert(ranked(drivers));
        assert(entry_le(drivers[j], drivers[i]));
        assert(precedes(drivers[j], drivers[i]) || drivers[j] == drivers[i]);
        assert(false);
    }
    assert(out[i].driver_result == (i + 1) as i32);
    assert(out[j].driver_result == (j + 1) as i32);
}

/// Whether some scored row is credited to the team.
pub open spec fn spec_scored_has_team(s: Seq<ScoredRow>, team_id: i32) -> bool {
    exists|k: int| 0 <= k < s.len() && s[k].team_id == team_id
}

/// The team items carry exactly the scored rows' teams.
pub proof fn lemma_team_items_ids(s: Seq<ScoredRow>)
    ensures
        forall|t: i32|
            #[trigger] items_have_id(spec_team_items(s), t) <==> spec_scored_has_team(s, t),
    decreases s.len(),
{
    if s.len() > 0 {
        let rest = s.drop_last();
        let prev = spec_team_items(rest);
        let cur = spec_team_items(s);
        lemma_team_items_ids(rest);
        assert(forall|k: int| 0 <= k < s.len() - 1 ==> rest[k] == s[k]);
        assert forall|t: i32| items_have_id(cur, t) <==> spec_scored_has_team(s, t) by {
            if items_have_id(cur, t) {
                let k = choose|k: int| 0 <= k < cur.len() && cur[k].0 == t;
                if k < prev.len() {
                    assert(prev[k].0 == t);
                    assert(items_have_id(prev, t));
                    let m = choose|m: int| 0 <= m < rest.len() && rest[m].team_id == t;
                    assert(s[m].team_id == t);
                } else {
                    assert(s[s.len() - 1].team_id == t);
                }
            }
            if spec_scored_has_team(s, t) {
                let m = choose|m: int| 0 <= m < s.len() && s[m].team_id == t;
                if m < s.len() - 1 {
                    assert(rest[m].team_id == t);
                    assert(spec_scored_has_team(rest, t));
                    assert(items_have_id(prev, t));
                    let k = choose|k: int| 0 <= k < prev.len() && prev[k].0 == t;
                    assert(cur[k].0 == t);
                } else {
                    assert(cur[cur.len() - 1].0 == t);
                }
                assert(items_have_id(cur, t));
            }
        }
    }
}

/// A driver's filtered rows are some of the rows, non-empty exactly when
/// the driver scored, and crediting only teams the driver scored for.
pub proof fn lemma_rows_for_driver_props(s: Seq<ScoredRow>, driver_id: i32)
    ensures
        spec_rows_for_driver(s, driver_id).len() <= s.len(),
        spec_rows_for_driver(s, driver_id).len() > 0 <==> spec_scored_has_driver(s, driver_id),
        forall|t: i32|
            #[trigger] spec_scored_has_team(spec_rows_for_driver(s, driver_id), t)
                ==> spec_scored_has_team(s, t),
    decreases s.len(),
{
    if s.len() > 0 {
        let rest = s.drop_last();
        let prev = spec_rows_for_driver(rest, driver_id);
        let cur = spec_rows_for_driver(s, driver_id);
        lemma_rows_for_driver_props(rest, driver_id);
        assert(forall|k: int| 0 <= k < s.len() - 1 ==> rest[k] == s[k]);
        if s.last().driver_id == driver_id {
            assert(s[s.len() - 1].driver_id == driver_id);
            assert(spec_scored_has_driver(s, driver_id));
        } else {
            if spec_scored_has_driver(s, driver_id) {
                let m = choose|m: int| 0 <= m < s.len() && s[m].driver_id == driver_id;
                assert(m < s.len() - 1);
                assert(rest[m].driver_id == driver_id);
                assert(spec_scored_has_driver(rest, driver_id));
            }
            if spec_scored_has_driver(rest, driver_id) {
                let m = choose|m: int| 0 <= m < rest.len() && rest[m].driver_id == driver_id;
                assert(s[m].driver_id == driver_id);
                assert(spec_scored_has_driver(s, driver_id));
            }
        }
        assert forall|t: i32| spec_scored_has_team(cur, t) implies spec_scored_has_team(s, t) by {
            if spec_scored_has_team(cur, t) {
                let k = choose|k: int| 0 <= k < cur.len() && cur[k].team_id == t;
                if k < prev.len() {
                    assert(prev[k].team_id == t);
                    assert(spec_scored_has_team(prev, t));
                    let m = choose|m: int| 0 <= m < rest.len() && rest[m].team_id == t;
                    assert(s[m].team_id == t);
                } else {
                    assert(cur[k] == s.last());
                    assert(s[s.len() - 1].team_id == t);
                }
            }
        }
    }
}

/// No scoring driver is left without a resolvable team: every standings
/// row of a successfully recomputed season carries the rank of its
/// driver's attributed team in the ranked team totals — at least one, at
/// most the number of scoring teams.
pub proof fn lemma_team_ranks_genuine(
    rows: Seq<ResultRow>,
    season: i32,
    rules: Seq<PointsRule>,
    seats: Seq<SeatAssignment>,
    scored: Seq<ScoredRow>,
    out: Seq<StandingRow>,
    i: int,
)
    requires
        rows.len() <= 0x7fff_ffff,
        spec_score(rows, season, rules, seats) == Ok::<Seq<ScoredRow>, EngineError>(scored),
        spec_season_standings(rows, season, rules, seats) == Ok::<
            Seq<StandingRow>,
            EngineError,
        >(out),
        0 <= i < out.len(),
    ensures
        spec_attributed_team(scored, out[i].driver_id) is Some,
        1 <= out[i].team_result,
        out[i].team_result <= spec_rank_sort(spec_accumulate(spec_team_items(scored))).len(),
{
    let items = spec_driver_items(scored);
    let totals = spec_accumulate(items);
    let drivers = spec_rank_sort(totals);
    let t_items = spec_team_items(scored);
    let t_totals = spec_accumulate(t_items);
    let teams = spec_rank_sort(t_totals);
    lemma_score_len(rows, season, rules, seats, scored);
    lemma_items_len(scored);
    lemma_accumulate_props(items);
    lemma_rank_sort_props(totals);
    lemma_build_rows(drivers, scored, teams, season);
    assert(out == spec_build(drivers, scored, teams, season));
    let d = out[i].driver_id;
    assert(drivers[i].id == d);
    assert(contains_id(drivers, d));
    assert(contains_id(totals, d));
    assert(items_have_id(items, d));
    lemma_driver_items_ids(scored);
    assert(spec_scored_has_driver(scored, d));
    let mine = spec_rows_for_driver(scored, d);
    lemma_rows_for_driver_props(scored, d);
    assert(mine.len() > 0);
    let m_items = spec_team_items(mine);
    let m_totals = spec_accumulate(m_items);
    lemma_items_len(mine);
    lemma_accumulate_props(m_items);
    assert(items_have_id(m_items, m_items[0].0));
    assert(contains_id(m_totals, m_items[0].0));
    assert(m_totals.len() > 0);
    lemma_best_entry_member(m_totals);
    let best = spec_best_entry(m_totals).unwrap();
    assert(spec_attributed_team(scored, d) == Some(best.id));
    assert(m_totals.contains(best));
    let k = choose|k: int| 0 <= k < m_totals.len() && m_totals[k] == best;
    assert(m_totals[k].id == best.id);
    assert(contains_id(m_totals, best.id));
    assert(items_have_id(m_items, best.id));
    lemma_team_items_ids(mine);
    assert(spec_scored_has_team(mine, best.id));
    assert(spec_scored_has_team(scored, best.id));
    lemma_team_items_ids(scored);
    assert(items_have_id(t_items, best.id));
    lemma_accumulate_props(t_items);
    assert(contains_id(t_totals, best.id));
    lemma_rank_sort_props(t_totals);
    assert(contains_id(teams, best.id));
    lemma_index_of_id(teams, best.id);
    let j = spec_index_of_id(teams, best.id).unwrap();
    assert(out[i].team_result == (j + 1) as i32);
    assert(teams.len() <= rows.len());
}
/// for that season exactly the fresh rows — never a stale row of the old
/// set, never a mix — and for every other season exactly the rows it had.
pub proof fn lemma_replace_no_mixing(
    table: Seq<StandingRow>,
    season: i32,
    fresh: Seq<StandingRow>,
)
    requires
        forall|k: int| 0 <= k < fresh.len() ==> (#[trigger] fresh[k]).season == season,
    ensures
        forall|k: int|
            0 <= k < spec_replace_season(table, season, fresh).len() && (
            #[trigger] spec_replace_season(table, season, fresh)[k]).season == season
                ==> fresh.contains(spec_replace_season(table, season, fresh)[k]),
        forall|k: int|
            0 <= k < spec_replace_season(table, season, fresh).len() && (
            #[trigger] spec_replace_season(table, season, fresh)[k]).season != season
                ==> table.contains(spec_replace_season(table, season, fresh)[k]),
        forall|k: int|
            0 <= k < fresh.len() ==> spec_replace_season(table, season, fresh).contains(
                #[trigger] fresh[k],
            ),
        forall|k: int|
            0 <= k < table.len() && (#[trigger] table[k]).season != season
                ==> spec_replace_season(table, season, fresh).contains(table[k]),
{
    let retained = spec_retained_rows(table, season);
    let out = spec_replace_season(table, season, fresh);
    lemma_retained_rows(table, season);
    assert forall|k: int|
        0 <= k < out.len() && (#[trigger] out[k]).season == season implies fresh.contains(
        out[k],
    ) by {
        if k < retained.len() {
            assert(retained[k].season != season);
        } else {
            assert(out[k] == fresh[k - retained.len()]);
            assert(fresh.contains(out[k]));
        }
    }
    assert forall|k: int|
        0 <= k < out.len() && (#[trigger] out[k]).season != season implies table.contains(
        out[k],
    ) by {
        if k < retained.len() {
            assert(out[k] == retained[k]);
            assert(table.contains(retained[k]));
        } else {
            assert(out[k] == fresh[k - retained.len()]);
        }
    }
    assert forall|k: int| 0 <= k < fresh.len() implies out.contains(#[trigger] fresh[k]) by {
        assert(out[retained.len() + k] == fresh[k]);
    }
    assert forall|k: int|
        0 <= k < table.len() && (#[trigger] table[k]).season != season implies out.contains(
        table[k],
    ) by {
        assert(retained.contains(table[k]));
        let m = choose|m: int| 0 <= m < retained.len() && retained[m] == table[k];
        assert(out[m] == table[k]);
    }
}

/// The retained rows are exactly the table's rows of other seasons.
pub proof fn lemma_retained_rows(table: Seq<StandingRow>, season: i32)
    ensures
        forall|k: int|
            0 <= k < spec_retained_rows(table, season).len() ==> table.contains(
                #[trigger] spec_retained_rows(table, season)[k],
            ) && spec_retained_rows(table, season)[k].season != season,
        forall|k: int|
            0 <= k < table.len() && (#[trigger] table[k]).season != season ==> spec_retained_rows(
                table,
                season,
            ).contains(table[k]),
    decreases table.len(),
{
    if table.len() > 0 {
        let rest = table.drop_last();
        let prev = spec_retained_rows(rest, season);
        let cur = spec_retained_rows(table, season);
        lemma_retained_rows(rest, season);
        assert(forall|k: int| 0 <= k < table.len() - 1 ==> rest[k] == table[k]);
        assert forall|k: int|
            0 <= k < cur.len() implies table.contains(#[trigger] cur[k]) && cur[k].season
            != season by {
            if k < prev.len() {
                assert(cur[k] == prev[k]);
                assert(rest.contains(prev[k]));
                let m = choose|m: int| 0 <= m < rest.len() && rest[m] == prev[k];
                assert(table[m] == cur[k]);
            } else {
                assert(cur[k] == table.last());
                assert(table[table.len() - 1] == cur[k]);
            }
        }
        assert forall|k: int|
            0 <= k < table.len() && (#[trigger] table[k]).season != season implies cur.contains(
            table[k],
        ) by {
            if k < table.len() - 1 {
                assert(rest[k].season != season);
                assert(prev.contains(rest[k]));
                let m = choose|m: int| 0 <= m < prev.len() && prev[m] == rest[k];
                assert(cur[m] == table[k]);
            } else {
                assert(cur[cur.len() - 1] == table[k]);
            }
        }
    }
}

} // verus!

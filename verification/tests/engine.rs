use standings::aggregate::accumulate;
use standings::aggregate::ScoreEntry;
use standings::aggregate::ScoredRow;
use standings::engine::attributed_team;
use standings::engine::dirty_seasons;
use standings::engine::replace_season;
use standings::engine::run_cycle;
use standings::engine::season_standings;
use standings::engine::EngineError;
use standings::records::PointsRule;
use standings::records::Position;
use standings::records::ResultRow;
use standings::records::SeasonState;
use standings::records::SeatAssignment;
use standings::records::StandingRow;

fn row(result_id: i32, seat_id: i32, season: i32, position: Position) -> ResultRow {
    ResultRow {
        result_id,
        seat_id,
        season,
        position,
        pole: false,
        leading_lap: false,
        fastest_lap: false,
        bot_result: false,
        qualy_result: None,
    }
}

fn rule(season: i32, position: Position, points: i32) -> PointsRule {
    PointsRule {
        season,
        position,
        pole: false,
        leading_lap: false,
        fastest_lap: false,
        points,
    }
}

fn seat(seat_id: i32, driver_id: i32, team_id: i32) -> SeatAssignment {
    SeatAssignment { seat_id, driver_id, team_id }
}

#[test]
fn two_drivers_one_team_ranked_by_points() {
    // Driver 1 takes 25 + 18 points, driver 2 takes 25 + 25, both for
    // team 10: driver 2 ranks first, driver 1 second, the team first.
    let rules = vec![
        rule(1, Position::Finished(1), 25),
        rule(1, Position::Finished(2), 18),
    ];
    let seats = vec![seat(100, 1, 10), seat(101, 2, 10)];
    let rows = vec![
        row(1, 100, 1, Position::Finished(1)),
        row(2, 100, 1, Position::Finished(2)),
        row(3, 101, 1, Position::Finished(1)),
        row(4, 101, 1, Position::Finished(1)),
    ];
    let out = season_standings(&rows, 1, &rules, &seats).unwrap();
    assert_eq!(
        out,
        vec![
            StandingRow { driver_id: 2, driver_result: 1, team_result: 1, season: 1 },
            StandingRow { driver_id: 1, driver_result: 2, team_result: 1, season: 1 },
        ]
    );
}

#[test]
fn shared_team_total_sums_both_drivers() {
    // The same scenario's team items: 25 + 18 + 25 + 25 = 93 points for
    // team 10.
    let items = vec![(10, 25), (10, 18), (10, 25), (10, 25)];
    let totals = accumulate(&items);
    assert_eq!(totals, vec![ScoreEntry { id: 10, points: 93 }]);
}

#[test]
fn tie_broken_by_ascending_driver_id() {
    // Drivers 7 and 9 tie on 26 points in season 2: the smaller
    // identifier ranks first.
    let rules = vec![rule(2, Position::Finished(3), 26)];
    let seats = vec![seat(90, 9, 2), seat(70, 7, 1)];
    let rows = vec![
        row(1, 90, 2, Position::Finished(3)),
        row(2, 70, 2, Position::Finished(3)),
    ];
    let out = season_standings(&rows, 2, &rules, &seats).unwrap();
    assert_eq!(out.len(), 2);
    assert_eq!(out[0].driver_id, 7);
    assert_eq!(out[0].driver_result, 1);
    assert_eq!(out[1].driver_id, 9);
    assert_eq!(out[1].driver_result, 2);
}

#[test]
fn unfinished_season_never_scanned() {
    // A season that is not finished is not selected, whatever its dirty
    // flag says; a finished clean season is not selected either.
    let seasons = vec![
        SeasonState { season: 1, finished: false, requires_recalc: true },
        SeasonState { season: 2, finished: true, requires_recalc: true },
        SeasonState { season: 3, finished: true, requires_recalc: false },
        SeasonState { season: 4, finished: false, requires_recalc: false },
    ];
    assert_eq!(dirty_seasons(&seasons), vec![2]);
}

#[test]
fn cycle_processes_exactly_the_dirty_seasons() {
    let seasons = vec![
        SeasonState { season: 1, finished: false, requires_recalc: true },
        SeasonState { season: 2, finished: true, requires_recalc: true },
    ];
    let rules = vec![rule(1, Position::Finished(1), 25), rule(2, Position::Finished(1), 25)];
    let seats = vec![seat(100, 1, 10)];
    let rows = vec![row(1, 100, 1, Position::Finished(1)), row(2, 100, 2, Position::Finished(1))];
    let out = run_cycle(&seasons, &rows, &rules, &seats).unwrap();
    // Only season 2 is processed: season 1 is unfinished, so its rows are
    // not recomputed and its flag is not cleared.
    assert_eq!(out.processed, vec![2]);
    assert_eq!(
        out.standings,
        vec![StandingRow { driver_id: 1, driver_result: 1, team_result: 1, season: 2 }]
    );
}

#[test]
fn rerunning_the_cycle_reproduces_the_rows() {
    let seasons = vec![
        SeasonState { season: 1, finished: true, requires_recalc: true },
        SeasonState { season: 2, finished: true, requires_recalc: true },
    ];
    let rules = vec![
        rule(1, Position::Finished(1), 25),
        rule(1, Position::Finished(2), 18),
        rule(2, Position::Finished(1), 25),
    ];
    let seats = vec![seat(100, 1, 10), seat(101, 2, 11), seat(102, 3, 10)];
    let rows = vec![
        row(1, 100, 1, Position::Finished(1)),
        row(2, 101, 1, Position::Finished(2)),
        row(3, 102, 1, Position::Finished(1)),
        row(4, 100, 2, Position::Finished(1)),
    ];
    let first = run_cycle(&seasons, &rows, &rules, &seats).unwrap();
    let second = run_cycle(&seasons, &rows, &rules, &seats).unwrap();
    assert_eq!(first.standings, second.standings);
    assert_eq!(first.processed, second.processed);
}

#[test]
fn ranks_stay_contiguous_under_ties() {
    // Three drivers, two tied on points: ranks are still 1, 2, 3.
    let rules = vec![rule(1, Position::Finished(1), 10), rule(1, Position::Finished(2), 5)];
    let seats = vec![seat(100, 5, 10), seat(101, 3, 11), seat(102, 8, 12)];
    let rows = vec![
        row(1, 100, 1, Position::Finished(1)),
        row(2, 101, 1, Position::Finished(1)),
        row(3, 102, 1, Position::Finished(2)),
    ];
    let out = season_standings(&rows, 1, &rules, &seats).unwrap();
    let mut ranks: Vec<i32> = out.iter().map(|r| r.driver_result).collect();
    ranks.sort();
    assert_eq!(ranks, vec![1, 2, 3]);
    // The tie between drivers 3 and 5 goes to driver 3.
    assert_eq!(out[0].driver_id, 3);
    assert_eq!(out[1].driver_id, 5);
    assert_eq!(out[2].driver_id, 8);
}

#[test]
fn replace_keeps_other_seasons_and_swaps_the_target() {
    let table = vec![
        StandingRow { driver_id: 1, driver_result: 1, team_result: 1, season: 1 },
        StandingRow { driver_id: 2, driver_result: 2, team_result: 1, season: 1 },
        StandingRow { driver_id: 1, driver_result: 1, team_result: 1, season: 2 },
    ];
    let fresh = vec![
        StandingRow { driver_id: 2, driver_result: 1, team_result: 1, season: 1 },
        StandingRow { driver_id: 1, driver_result: 2, team_result: 1, season: 1 },
    ];
    let out = replace_season(&table, 1, &fresh);
    // Season 1 rows are exactly the fresh ones, season 2 is untouched:
    // no stale season-1 row survives next to a new one.
    let season1: Vec<StandingRow> = out.iter().filter(|r| r.season == 1).copied().collect();
    let season2: Vec<StandingRow> = out.iter().filter(|r| r.season == 2).copied().collect();
    assert_eq!(season1, fresh);
    assert_eq!(season2, vec![table[2]]);
    assert_eq!(out.len(), 3);
}

#[test]
fn result_on_unassigned_seat_is_an_error() {
    let rules = vec![rule(1, Position::Finished(1), 25)];
    let seats = vec![seat(100, 1, 10)];
    let rows = vec![row(1, 999, 1, Position::Finished(1))];
    let out = season_standings(&rows, 1, &rules, &seats);
    assert_eq!(out, Err(EngineError::UnassignedSeat { seat_id: 999 }));
}

#[test]
fn result_without_points_rule_is_an_error() {
    let rules = vec![rule(1, Position::Finished(1), 25)];
    let seats = vec![seat(100, 1, 10)];
    let rows = vec![row(7, 100, 1, Position::Finished(2))];
    let out = season_standings(&rows, 1, &rules, &seats);
    assert_eq!(out, Err(EngineError::MissingPointsRule { result_id: 7 }));
}

#[test]
fn failing_season_aborts_the_whole_cycle() {
    // Season 2's rows are fine, season 1 has a result on an unknown
    // seat: the cycle returns the error and hands no rows back.
    let seasons = vec![
        SeasonState { season: 1, finished: true, requires_recalc: true },
        SeasonState { season: 2, finished: true, requires_recalc: true },
    ];
    let rules = vec![rule(1, Position::Finished(1), 25), rule(2, Position::Finished(1), 25)];
    let seats = vec![seat(100, 1, 10)];
    let rows = vec![row(1, 999, 1, Position::Finished(1)), row(2, 100, 2, Position::Finished(1))];
    let out = run_cycle(&seasons, &rows, &rules, &seats);
    assert!(matches!(out, Err(EngineError::UnassignedSeat { seat_id: 999 })));
}

#[test]
fn multi_seat_driver_credited_to_strongest_team() {
    // The driver scored 10 points from a team-20 seat and 30 from a
    // team-30 seat: the attribution goes to team 30.
    let scored = vec![
        ScoredRow { driver_id: 1, team_id: 20, points: 10 },
        ScoredRow { driver_id: 1, team_id: 30, points: 30 },
    ];
    assert_eq!(attributed_team(&scored, 1), Some(30));
}

#[test]
fn equal_team_contributions_go_to_greater_team_id() {
    let scored = vec![
        ScoredRow { driver_id: 1, team_id: 30, points: 10 },
        ScoredRow { driver_id: 1, team_id: 20, points: 10 },
    ];
    assert_eq!(attributed_team(&scored, 1), Some(30));
    assert_eq!(attributed_team(&scored, 2), None);
}

#[test]
fn mid_season_team_change_ranks_teams_separately() {
    // Driver 1 scores for team 20 and then for team 30; driver 2 scores
    // for team 20 only. Team totals: team 20 takes 18 + 15 = 33, team 30
    // takes 25. Driver 1 (40 points) is credited to team 30.
    let rules = vec![
        rule(1, Position::Finished(1), 25),
        rule(1, Position::Finished(2), 18),
        rule(1, Position::Finished(3), 15),
    ];
    let seats = vec![seat(100, 1, 20), seat(101, 1, 30), seat(102, 2, 20)];
    let rows = vec![
        row(1, 100, 1, Position::Finished(3)),
        row(2, 101, 1, Position::Finished(1)),
        row(3, 102, 1, Position::Finished(2)),
    ];
    let out = season_standings(&rows, 1, &rules, &seats).unwrap();
    assert_eq!(
        out,
        vec![
            // Driver 1: 40 points, attributed to team 30, which ranks
            // behind team 20 on 33 against 25.
            StandingRow { driver_id: 1, driver_result: 1, team_result: 2, season: 1 },
            StandingRow { driver_id: 2, driver_result: 2, team_result: 1, season: 1 },
        ]
    );
}

#[test]
fn rows_of_other_seasons_are_ignored() {
    let rules = vec![rule(1, Position::Finished(1), 25)];
    let seats = vec![seat(100, 1, 10), seat(101, 2, 11)];
    let rows = vec![
        row(1, 100, 1, Position::Finished(1)),
        row(2, 101, 3, Position::Finished(1)),
    ];
    let out = season_standings(&rows, 1, &rules, &seats).unwrap();
    assert_eq!(out.len(), 1);
    assert_eq!(out[0].driver_id, 1);
}

#[test]
fn empty_season_yields_no_rows() {
    let rules: Vec<PointsRule> = Vec::new();
    let seats: Vec<SeatAssignment> = Vec::new();
    let rows: Vec<ResultRow> = Vec::new();
    let out = season_standings(&rows, 1, &rules, &seats).unwrap();
    assert!(out.is_empty());
}

#[test]
fn bonus_flags_select_their_own_rule() {
    // The same finishing position scores differently with the pole flag
    // set, because it matches a different rule.
    let mut pole_rule = rule(1, Position::Finished(1), 26);
    pole_rule.pole = true;
    let rules = vec![rule(1, Position::Finished(1), 25), pole_rule];
    let seats = vec![seat(100, 1, 10), seat(101, 2, 11)];
    let mut pole_row = row(1, 100, 1, Position::Finished(1));
    pole_row.pole = true;
    let rows = vec![pole_row, row(2, 101, 1, Position::Finished(1))];
    let out = season_standings(&rows, 1, &rules, &seats).unwrap();
    assert_eq!(out[0].driver_id, 1);
    assert_eq!(out[0].driver_result, 1);
    assert_eq!(out[1].driver_id, 2);
    assert_eq!(out[1].driver_result, 2);
}

#[test]
fn negative_points_rank_below_zero_scorers() {
    // A disqualification rule can deduct points; the deducted driver
    // ranks last.
    let rules = vec![rule(1, Position::Finished(1), 25), rule(1, Position::Dsq, -10)];
    let seats = vec![seat(100, 1, 10), seat(101, 2, 11)];
    let rows = vec![row(1, 100, 1, Position::Dsq), row(2, 101, 1, Position::Finished(1))];
    let out = season_standings(&rows, 1, &rules, &seats).unwrap();
    assert_eq!(out[0].driver_id, 2);
    assert_eq!(out[1].driver_id, 1);
    assert_eq!(out[1].driver_result, 2);
}

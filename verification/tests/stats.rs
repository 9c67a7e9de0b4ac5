use netball_core::{
    derive_stats, Action, CentrePassReceivePosition, Conversions, CourtPosition, Event,
    FeedPosition, GainSubType, GoalPosition, LogEntry, PlayerStats, Position, QuarterBreak,
    ReboundPosition, Score, StatsReport, Substitution, Team, TeamStats,
};

// --- Log-building helpers ------------------------------------------------

fn event(team: Team, action: Action) -> LogEntry {
    LogEntry::Event(Event {
        team,
        action,
        flagged: false,
        timestamp_ms: Some(1_000),
    })
}

fn sub(team: Team, position: CourtPosition, player: &str, at_ms: i64) -> LogEntry {
    LogEntry::Substitution(Substitution {
        team,
        position,
        player: player.to_string(),
        timestamp_ms: Some(at_ms),
    })
}

fn cpr(team: Team, position: CentrePassReceivePosition) -> LogEntry {
    event(
        team,
        Action::CentrePassReceive {
            position,
            failed: false,
        },
    )
}

fn feed(team: Team, position: FeedPosition, failed: bool) -> LogEntry {
    event(team, Action::Feed { position, failed })
}

fn shot(team: Team, position: GoalPosition, failed: bool) -> LogEntry {
    event(team, Action::Goal { position, failed })
}

fn goal(team: Team, position: GoalPosition) -> LogEntry {
    shot(team, position, false)
}

fn gain(team: Team, position: Position, sub_type: Option<GainSubType>) -> LogEntry {
    event(team, Action::Gain { position, sub_type })
}

fn rebound(team: Team, position: ReboundPosition) -> LogEntry {
    event(team, Action::Rebound { position })
}

fn turnover(team: Team, position: Position) -> LogEntry {
    event(team, Action::UnforcedTurnover { position })
}

fn infringement(team: Team, position: Position) -> LogEntry {
    event(team, Action::Infringement { position })
}

fn quarter_break() -> LogEntry {
    LogEntry::QuarterBreak(QuarterBreak {
        timestamp_ms: Some(1_000),
    })
}

/// Team A's players from a report, by name (panics if absent).
fn player<'a>(report: &'a StatsReport, name: &str) -> &'a PlayerStats {
    report.teams[0]
        .players
        .iter()
        .find(|stats| stats.player == name)
        .unwrap_or_else(|| panic!("no player {name} in team A"))
}

fn strip_timestamps(log: &[LogEntry]) -> Vec<LogEntry> {
    log.iter()
        .map(|entry| match entry.clone() {
            LogEntry::Event(e) => LogEntry::Event(Event {
                timestamp_ms: None,
                ..e
            }),
            LogEntry::QuarterBreak(_) => {
                LogEntry::QuarterBreak(QuarterBreak { timestamp_ms: None })
            }
            LogEntry::Substitution(s) => LogEntry::Substitution(Substitution {
                timestamp_ms: None,
                ..s
            }),
        })
        .collect()
}

// --- Per-player counts ---------------------------------------------------

#[test]
fn shots_and_goals_split_made_from_missed() {
    let log = [
        sub(Team::A, CourtPosition::GS, "Alice", 0),
        goal(Team::A, GoalPosition::GS),
        shot(Team::A, GoalPosition::GS, true),
        goal(Team::A, GoalPosition::GS),
    ];
    let report = derive_stats(&log);
    let alice = player(&report, "Alice");
    assert_eq!(alice.shots, 3);
    assert_eq!(alice.goals, 2);
}

#[test]
fn feeds_split_complete_from_incomplete() {
    let log = [
        sub(Team::A, CourtPosition::WA, "Wanda", 0),
        feed(Team::A, FeedPosition::WA, false),
        feed(Team::A, FeedPosition::WA, true),
        feed(Team::A, FeedPosition::WA, false),
    ];
    let report = derive_stats(&log);
    let wanda = player(&report, "Wanda");
    assert_eq!(wanda.feeds, 3);
    assert_eq!(wanda.completed_feeds, 2);
}

#[test]
fn rebounds_are_attacking_or_defensive_by_position() {
    let log = [
        sub(Team::A, CourtPosition::GA, "Attie", 0),
        sub(Team::A, CourtPosition::GK, "Deffo", 0),
        rebound(Team::A, ReboundPosition::GA),
        rebound(Team::A, ReboundPosition::GK),
        rebound(Team::A, ReboundPosition::GK),
    ];
    let report = derive_stats(&log);
    assert_eq!(player(&report, "Attie").attacking_rebounds, 1);
    assert_eq!(player(&report, "Attie").defensive_rebounds, 0);
    assert_eq!(player(&report, "Deffo").defensive_rebounds, 2);
    assert_eq!(player(&report, "Deffo").attacking_rebounds, 0);
}

#[test]
fn turnovers_and_infringements_are_counted() {
    let log = [
        sub(Team::A, CourtPosition::C, "Cara", 0),
        turnover(Team::A, Position::C),
        infringement(Team::A, Position::C),
        infringement(Team::A, Position::C),
    ];
    let report = derive_stats(&log);
    assert_eq!(player(&report, "Cara").unforced_turnovers, 1);
    assert_eq!(player(&report, "Cara").infringements, 2);
}

#[test]
fn gains_total_and_break_down_by_sub_type() {
    let log = [
        sub(Team::A, CourtPosition::GD, "Gina", 0),
        gain(Team::A, Position::GD, Some(GainSubType::Interception)),
        gain(Team::A, Position::GD, Some(GainSubType::Deflection)),
        gain(Team::A, Position::GD, Some(GainSubType::PickUp)),
        gain(Team::A, Position::GD, None),
    ];
    let report = derive_stats(&log);
    let gina = player(&report, "Gina");
    assert_eq!(gina.gains, 4);
    assert_eq!(gina.gain_interceptions, 1);
    assert_eq!(gina.gain_deflections, 1);
    assert_eq!(gina.gain_pick_ups, 1);
    // The bare gain is in the total but no sub-type bucket.
    assert_eq!(
        gina.gains,
        gina.gain_interceptions + gina.gain_deflections + gina.gain_pick_ups + 1
    );
}

// --- Derived feed descriptors -------------------------------------------

#[test]
fn a_feed_then_goal_is_a_feed_with_shot_and_an_assist() {
    let log = [
        sub(Team::A, CourtPosition::WA, "Wanda", 0),
        sub(Team::A, CourtPosition::GS, "Alice", 0),
        feed(Team::A, FeedPosition::WA, false),
        goal(Team::A, GoalPosition::GS),
    ];
    let report = derive_stats(&log);
    let wanda = player(&report, "Wanda");
    assert_eq!(wanda.feeds_with_shot, 1);
    assert_eq!(wanda.goal_assists, 1);
}

#[test]
fn a_feed_then_missed_shot_is_a_feed_with_shot_but_no_assist() {
    let log = [
        sub(Team::A, CourtPosition::WA, "Wanda", 0),
        sub(Team::A, CourtPosition::GS, "Alice", 0),
        feed(Team::A, FeedPosition::WA, false),
        shot(Team::A, GoalPosition::GS, true),
    ];
    let report = derive_stats(&log);
    let wanda = player(&report, "Wanda");
    assert_eq!(wanda.feeds_with_shot, 1);
    assert_eq!(wanda.goal_assists, 0);
}

#[test]
fn a_goal_off_a_rebound_does_not_assist_the_original_feed() {
    // feed → miss → rebound → goal: the feed produced a shot (with-shot),
    // but the rebound breaks the assist link, so no assist is credited.
    let log = [
        sub(Team::A, CourtPosition::WA, "Wanda", 0),
        sub(Team::A, CourtPosition::GS, "Alice", 0),
        feed(Team::A, FeedPosition::WA, false),
        shot(Team::A, GoalPosition::GS, true),
        rebound(Team::A, ReboundPosition::GS),
        goal(Team::A, GoalPosition::GS),
    ];
    let report = derive_stats(&log);
    let wanda = player(&report, "Wanda");
    assert_eq!(wanda.feeds_with_shot, 1);
    assert_eq!(wanda.goal_assists, 0);
    // The rebound and second goal still land on the shooter.
    let alice = player(&report, "Alice");
    assert_eq!(alice.attacking_rebounds, 1);
    assert_eq!(alice.goals, 1);
    assert_eq!(alice.shots, 2);
}

#[test]
fn only_the_last_feed_before_a_shot_is_credited() {
    // Two feeds then a goal: the ball was re-fed, so the second feeder
    // gets the with-shot and assist, not the first.
    let log = [
        sub(Team::A, CourtPosition::WA, "Wanda", 0),
        sub(Team::A, CourtPosition::C, "Cara", 0),
        sub(Team::A, CourtPosition::GS, "Alice", 0),
        feed(Team::A, FeedPosition::WA, false),
        feed(Team::A, FeedPosition::C, false),
        goal(Team::A, GoalPosition::GS),
    ];
    let report = derive_stats(&log);
    assert_eq!(player(&report, "Wanda").feeds_with_shot, 0);
    assert_eq!(player(&report, "Wanda").goal_assists, 0);
    assert_eq!(player(&report, "Cara").feeds_with_shot, 1);
    assert_eq!(player(&report, "Cara").goal_assists, 1);
}

#[test]
fn a_feed_the_opposition_ends_carries_no_shot() {
    // feed then the possession is lost (turnover): no shot follows.
    let log = [
        sub(Team::A, CourtPosition::WA, "Wanda", 0),
        feed(Team::A, FeedPosition::WA, false),
        turnover(Team::A, Position::GS),
    ];
    let report = derive_stats(&log);
    assert_eq!(player(&report, "Wanda").feeds_with_shot, 0);
}

// --- Conversion rates ----------------------------------------------------

#[test]
fn centre_pass_to_goal_conversion_counts_possessions_that_scored() {
    // CP → feed → goal converts; CP → turnover does not.
    let log = [
        sub(Team::A, CourtPosition::WA, "Wanda", 0),
        sub(Team::A, CourtPosition::GS, "Alice", 0),
        cpr(Team::A, CentrePassReceivePosition::WA),
        feed(Team::A, FeedPosition::WA, false),
        goal(Team::A, GoalPosition::GS),
        cpr(Team::A, CentrePassReceivePosition::WA),
        turnover(Team::A, Position::WA),
    ];
    let conversions = derive_stats(&log).teams[0].conversions;
    assert_eq!(conversions.centre_pass_total, 2);
    assert_eq!(conversions.centre_pass_goals, 1);
}

#[test]
fn a_turnover_directly_off_a_centre_pass_is_an_unconverted_possession() {
    let log = [
        sub(Team::A, CourtPosition::WA, "Wanda", 0),
        cpr(Team::A, CentrePassReceivePosition::WA),
        turnover(Team::A, Position::WA),
    ];
    let conversions = derive_stats(&log).teams[0].conversions;
    assert_eq!(conversions.centre_pass_total, 1);
    assert_eq!(conversions.centre_pass_goals, 0);
}

#[test]
fn gain_to_goal_conversion_counts_possessions_that_scored() {
    // A gain that leads to a goal converts; a gain answered by the
    // opposition's goal does not.
    let log = [
        sub(Team::A, CourtPosition::GD, "Gina", 0),
        sub(Team::A, CourtPosition::GS, "Alice", 0),
        gain(Team::A, Position::GD, Some(GainSubType::Interception)),
        goal(Team::A, GoalPosition::GS),
        gain(Team::A, Position::GD, None),
        goal(Team::B, GoalPosition::Team),
    ];
    let conversions = derive_stats(&log).teams[0].conversions;
    assert_eq!(conversions.gain_total, 2);
    assert_eq!(conversions.gain_goals, 1);
}

#[test]
fn a_goal_off_a_rebound_still_converts_the_centre_pass() {
    // The made goal ends the possession even though it came off a rebound;
    // the whole possession began with a centre pass, so it converts.
    let log = [
        sub(Team::A, CourtPosition::WA, "Wanda", 0),
        sub(Team::A, CourtPosition::GS, "Alice", 0),
        cpr(Team::A, CentrePassReceivePosition::WA),
        feed(Team::A, FeedPosition::WA, false),
        shot(Team::A, GoalPosition::GS, true),
        rebound(Team::A, ReboundPosition::GS),
        goal(Team::A, GoalPosition::GS),
    ];
    let conversions = derive_stats(&log).teams[0].conversions;
    assert_eq!(conversions.centre_pass_total, 1);
    assert_eq!(conversions.centre_pass_goals, 1);
}

// --- Attribution, teams, and ordering -----------------------------------

#[test]
fn a_substitution_splits_a_positions_stats_between_players() {
    let log = [
        sub(Team::A, CourtPosition::GS, "Alice", 0),
        goal(Team::A, GoalPosition::GS),
        sub(Team::A, CourtPosition::GS, "Eve", 2_000),
        goal(Team::A, GoalPosition::GS),
        goal(Team::A, GoalPosition::GS),
    ];
    let report = derive_stats(&log);
    assert_eq!(player(&report, "Alice").goals, 1);
    assert_eq!(player(&report, "Eve").goals, 2);
}

#[test]
fn opposition_goals_score_but_attribute_to_no_player() {
    let log = [
        sub(Team::A, CourtPosition::GS, "Alice", 0),
        goal(Team::A, GoalPosition::GS),
        goal(Team::B, GoalPosition::Team),
        goal(Team::B, GoalPosition::Team),
    ];
    let report = derive_stats(&log);
    assert_eq!(
        report.score,
        Score {
            team_a: 1,
            team_b: 2
        }
    );
    // Team B coded only its goals as TEAM: no per-player rows.
    assert!(report.teams[1].players.is_empty());
}

#[test]
fn players_appear_in_order_of_first_appearance() {
    let log = [
        sub(Team::A, CourtPosition::GS, "Alice", 0),
        sub(Team::A, CourtPosition::GA, "Beth", 0),
        sub(Team::A, CourtPosition::WA, "Wanda", 0),
    ];
    let report = derive_stats(&log);
    let names: Vec<&str> = report.teams[0]
        .players
        .iter()
        .map(|stats| stats.player.as_str())
        .collect();
    assert_eq!(names, ["Alice", "Beth", "Wanda"]);
}

#[test]
fn quarter_breaks_end_the_possession_they_fall_in() {
    // A centre-pass possession interrupted by the end of the quarter never
    // scored, so it does not convert.
    let log = [
        sub(Team::A, CourtPosition::WA, "Wanda", 0),
        sub(Team::A, CourtPosition::GS, "Alice", 0),
        cpr(Team::A, CentrePassReceivePosition::WA),
        feed(Team::A, FeedPosition::WA, false),
        quarter_break(),
        goal(Team::A, GoalPosition::GS),
    ];
    let report = derive_stats(&log);
    let conversions = report.teams[0].conversions;
    assert_eq!(conversions.centre_pass_total, 1);
    assert_eq!(conversions.centre_pass_goals, 0);
    // The feed and the goal are in different possessions, so no assist.
    assert_eq!(player(&report, "Wanda").feeds_with_shot, 0);
}

// --- Timestamp-free logs -------------------------------------------------

#[test]
fn counts_are_exact_without_timestamps_but_playing_time_is_absent() {
    let log = [
        sub(Team::A, CourtPosition::WA, "Wanda", 0),
        sub(Team::A, CourtPosition::GS, "Alice", 0),
        cpr(Team::A, CentrePassReceivePosition::WA),
        feed(Team::A, FeedPosition::WA, false),
        goal(Team::A, GoalPosition::GS),
    ];
    let timed = derive_stats(&log);
    let untimed = derive_stats(&strip_timestamps(&log));

    // Every count-based figure is identical…
    assert_eq!(timed.score, untimed.score);
    assert_eq!(timed.teams[0].conversions, untimed.teams[0].conversions);
    assert_eq!(
        player_in(&timed, "Alice").goals,
        player_in(&untimed, "Alice").goals
    );
    assert_eq!(
        player_in(&timed, "Wanda").goal_assists,
        player_in(&untimed, "Wanda").goal_assists
    );

    // …but Playing Time is available only with timestamps.
    assert!(timed.teams[0].playing_time_available);
    assert!(player_in(&timed, "Alice").playing_time_ms.is_some());
    assert!(!untimed.teams[0].playing_time_available);
    assert!(player_in(&untimed, "Alice").playing_time_ms.is_none());
}

fn player_in<'a>(report: &'a StatsReport, name: &str) -> &'a PlayerStats {
    report.teams[0]
        .players
        .iter()
        .find(|stats| stats.player == name)
        .unwrap()
}

#[test]
fn an_empty_log_reports_nothing_scored_and_no_players() {
    let report = derive_stats(&[]);
    assert_eq!(
        report.score,
        Score {
            team_a: 0,
            team_b: 0
        }
    );
    assert_eq!(report.quarter_scores.len(), 1);
    assert!(report.teams[0].players.is_empty());
    assert!(report.teams[1].players.is_empty());
    assert_eq!(report.teams[0].conversions, Conversions::default());
    // With no substitutions at all, Playing Time is an empty availability,
    // not withheld.
    assert!(report.teams[0].playing_time_available);
}

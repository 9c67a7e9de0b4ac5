use netball_core::{
    derive_attributions, derive_playing_time, derive_roster, Action, CourtPosition, Event,
    GoalPosition, LogEntry, PlayingTime, QuarterBreak, Roster, Substitution, Team,
};

fn substitution(team: Team, position: CourtPosition, player: &str, at_ms: i64) -> LogEntry {
    LogEntry::Substitution(Substitution {
        team,
        position,
        player: player.to_string(),
        timestamp_ms: Some(at_ms),
    })
}

fn goal_by(team: Team, position: GoalPosition, at_ms: i64) -> LogEntry {
    LogEntry::Event(Event {
        team,
        action: Action::Goal {
            position,
            failed: false,
        },
        flagged: false,
        timestamp_ms: Some(at_ms),
    })
}

fn quarter_break_at(at_ms: i64) -> LogEntry {
    LogEntry::QuarterBreak(QuarterBreak {
        timestamp_ms: Some(at_ms),
    })
}

fn without_timestamps(log: &[LogEntry]) -> Vec<LogEntry> {
    log.iter()
        .map(|entry| match entry.clone() {
            LogEntry::Event(event) => LogEntry::Event(Event {
                timestamp_ms: None,
                ..event
            }),
            LogEntry::QuarterBreak(_) => {
                LogEntry::QuarterBreak(QuarterBreak { timestamp_ms: None })
            }
            LogEntry::Substitution(substitution) => LogEntry::Substitution(Substitution {
                timestamp_ms: None,
                ..substitution
            }),
        })
        .collect()
}

#[test]
fn an_empty_log_has_an_empty_roster() {
    assert_eq!(derive_roster(&[], Team::A), Roster::default());
}

#[test]
fn setup_substitutions_fill_the_roster_and_gaps_stay_open() {
    let log = [
        substitution(Team::A, CourtPosition::GS, "Alice", 0),
        substitution(Team::A, CourtPosition::C, "Cara", 0),
    ];
    let roster = derive_roster(&log, Team::A);
    assert_eq!(roster.player_at(CourtPosition::GS), Some("Alice"));
    assert_eq!(roster.player_at(CourtPosition::C), Some("Cara"));
    assert_eq!(roster.player_at(CourtPosition::GK), None);
}

#[test]
fn a_later_substitution_replaces_the_occupant() {
    let log = [
        substitution(Team::A, CourtPosition::GA, "Beth", 0),
        substitution(Team::A, CourtPosition::GA, "Dana", 600_000),
    ];
    assert_eq!(
        derive_roster(&log, Team::A).player_at(CourtPosition::GA),
        Some("Dana")
    );
}

#[test]
fn each_team_has_its_own_roster() {
    let log = [
        substitution(Team::A, CourtPosition::GS, "Alice", 0),
        substitution(Team::B, CourtPosition::GS, "Zoe", 0),
    ];
    assert_eq!(
        derive_roster(&log, Team::A).player_at(CourtPosition::GS),
        Some("Alice")
    );
    assert_eq!(
        derive_roster(&log, Team::B).player_at(CourtPosition::GS),
        Some("Zoe")
    );
}

#[test]
fn events_attribute_to_the_occupant_at_that_moment() {
    // Beth shoots, is substituted for Dana at the same position, Dana
    // shoots: the two goals attribute to different players.
    let log = [
        substitution(Team::A, CourtPosition::GA, "Beth", 0),
        goal_by(Team::A, GoalPosition::GA, 1_000),
        substitution(Team::A, CourtPosition::GA, "Dana", 2_000),
        goal_by(Team::A, GoalPosition::GA, 3_000),
    ];
    assert_eq!(
        derive_attributions(&log),
        vec![
            None,
            Some("Beth".to_string()),
            None,
            Some("Dana".to_string())
        ]
    );
}

#[test]
fn attribution_is_none_for_team_events_and_unfilled_positions() {
    let log = [
        substitution(Team::A, CourtPosition::GA, "Beth", 0),
        // TEAM-attributed goal: no individual to attribute.
        goal_by(Team::A, GoalPosition::Team, 1_000),
        // GS has no substitution yet: attributable position, no player.
        goal_by(Team::A, GoalPosition::GS, 2_000),
    ];
    assert_eq!(derive_attributions(&log), vec![None, None, None]);
}

#[test]
fn attribution_respects_the_event_team() {
    // Team B's roster never answers for team A's events.
    let log = [
        substitution(Team::B, CourtPosition::GS, "Zoe", 0),
        goal_by(Team::A, GoalPosition::GS, 1_000),
        goal_by(Team::B, GoalPosition::GS, 2_000),
    ];
    assert_eq!(
        derive_attributions(&log),
        vec![None, None, Some("Zoe".to_string())]
    );
}

#[test]
fn attribution_works_without_timestamps() {
    // Order-based derivations stay exact on timestamp-free logs.
    let log = without_timestamps(&[
        substitution(Team::A, CourtPosition::GA, "Beth", 0),
        goal_by(Team::A, GoalPosition::GA, 0),
    ]);
    assert_eq!(
        derive_attributions(&log),
        vec![None, Some("Beth".to_string())]
    );
}

#[test]
fn playing_time_runs_from_going_on_to_being_replaced_or_the_end() {
    let log = [
        substitution(Team::A, CourtPosition::GA, "Beth", 0),
        substitution(Team::A, CourtPosition::GA, "Dana", 600_000),
        goal_by(Team::A, GoalPosition::GA, 900_000),
    ];
    assert_eq!(
        derive_playing_time(&log, Team::A).unwrap(),
        vec![
            PlayingTime {
                player: "Beth".to_string(),
                milliseconds: 600_000
            },
            PlayingTime {
                player: "Dana".to_string(),
                milliseconds: 300_000
            },
        ]
    );
}

#[test]
fn a_substitution_at_a_quarter_break_splits_time_at_the_break() {
    let log = [
        substitution(Team::A, CourtPosition::GA, "Beth", 0),
        quarter_break_at(600_000),
        substitution(Team::A, CourtPosition::GA, "Dana", 600_000),
        goal_by(Team::A, GoalPosition::GA, 1_000_000),
    ];
    let times = derive_playing_time(&log, Team::A).unwrap();
    assert_eq!(times[0].milliseconds, 600_000); // Beth: up to the break
    assert_eq!(times[1].milliseconds, 400_000); // Dana: the break onward
}

#[test]
fn a_player_in_two_positions_in_sequence_accumulates_across_stints() {
    // Alice starts GS, moves to GA when Eve takes GS; Alice's total spans
    // both stints.
    let log = [
        substitution(Team::A, CourtPosition::GS, "Alice", 0),
        substitution(Team::A, CourtPosition::GS, "Eve", 400_000),
        substitution(Team::A, CourtPosition::GA, "Alice", 400_000),
        goal_by(Team::A, GoalPosition::GA, 1_000_000),
    ];
    assert_eq!(
        derive_playing_time(&log, Team::A).unwrap(),
        vec![
            PlayingTime {
                player: "Alice".to_string(),
                milliseconds: 1_000_000
            },
            PlayingTime {
                player: "Eve".to_string(),
                milliseconds: 600_000
            },
        ]
    );
}

#[test]
fn playing_time_is_unavailable_without_timestamps() {
    let log = without_timestamps(&[
        substitution(Team::A, CourtPosition::GA, "Beth", 0),
        goal_by(Team::A, GoalPosition::GA, 0),
    ]);
    assert_eq!(derive_playing_time(&log, Team::A), None);
}

#[test]
fn one_untimestamped_substitution_withholds_playing_time_entirely() {
    let log = [
        substitution(Team::A, CourtPosition::GA, "Beth", 0),
        LogEntry::Substitution(Substitution {
            team: Team::A,
            position: CourtPosition::GS,
            player: "Alice".to_string(),
            timestamp_ms: None,
        }),
        goal_by(Team::A, GoalPosition::GA, 600_000),
    ];
    assert_eq!(derive_playing_time(&log, Team::A), None);
}

#[test]
fn playing_time_without_a_roster_is_an_empty_list_not_unavailable() {
    let log = [goal_by(Team::A, GoalPosition::GS, 1_000)];
    assert_eq!(derive_playing_time(&log, Team::A), Some(vec![]));
    // Even with nothing timestamped — or nothing at all — in the log.
    assert_eq!(derive_playing_time(&[], Team::A), Some(vec![]));
    assert_eq!(
        derive_playing_time(&without_timestamps(&log), Team::A),
        Some(vec![])
    );
}

#[test]
fn playing_time_only_counts_the_asked_teams_players() {
    let log = [
        substitution(Team::A, CourtPosition::GS, "Alice", 0),
        substitution(Team::B, CourtPosition::GS, "Zoe", 0),
        goal_by(Team::A, GoalPosition::GS, 500_000),
    ];
    let times = derive_playing_time(&log, Team::A).unwrap();
    assert_eq!(times.len(), 1);
    assert_eq!(times[0].player, "Alice");
}

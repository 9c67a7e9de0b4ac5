use netball_core::{
    derive_attributions, derive_playing_time, derive_quarter_scores, derive_roster, derive_score,
    derive_stats, parse_shorthand, Action, CourtPosition, Event, FeedPosition, GoalPosition,
    LogEntry, Position, QuarterBreak, ReboundPosition, Score, Substitution, Team,
};

fn timed_goal(team: Team, at_ms: i64) -> LogEntry {
    LogEntry::Event(Event {
        team,
        action: Action::Goal {
            position: GoalPosition::GS,
            failed: false,
        },
        flagged: false,
        timestamp_ms: Some(at_ms),
    })
}

fn timed_sub(team: Team, position: CourtPosition, player: &str, at_ms: i64) -> LogEntry {
    LogEntry::Substitution(Substitution {
        team,
        position,
        player: player.to_string(),
        timestamp_ms: Some(at_ms),
    })
}

fn untimed(log: &[LogEntry]) -> Vec<LogEntry> {
    log.iter()
        .map(|entry| match entry.clone() {
            LogEntry::Event(event) => LogEntry::Event(Event {
                timestamp_ms: None,
                ..event
            }),
            LogEntry::QuarterBreak(_) => LogEntry::QuarterBreak(QuarterBreak { timestamp_ms: None }),
            LogEntry::Substitution(substitution) => LogEntry::Substitution(Substitution {
                timestamp_ms: None,
                ..substitution
            }),
        })
        .collect()
}

#[test]
fn the_other_team_of_the_other_team_is_the_team() {
    assert_eq!(Team::A.other(), Team::B);
    assert_eq!(Team::B.other(), Team::A);
    assert_eq!(Team::A.other().other(), Team::A);
}

#[test]
fn narrowing_a_position_undoes_widening() {
    assert_eq!(GoalPosition::from_position(Position::Team), Some(GoalPosition::Team));
    assert_eq!(GoalPosition::from_position(Position::WD), None);
    assert_eq!(ReboundPosition::from_position(Position::GK), Some(ReboundPosition::GK));
    assert_eq!(FeedPosition::from_position(Position::GK), None);
    assert_eq!(CourtPosition::from_position(Position::Team), None);
    assert_eq!(
        Position::from(CourtPosition::from_position(Position::C).unwrap()),
        Position::C
    );
}

#[test]
fn a_log_entry_reports_its_capture_time() {
    assert_eq!(timed_goal(Team::A, 5).timestamp_ms(), Some(5));
    assert_eq!(
        LogEntry::QuarterBreak(QuarterBreak { timestamp_ms: None }).timestamp_ms(),
        None
    );
    assert_eq!(timed_sub(Team::B, CourtPosition::GK, "Kim", 9).timestamp_ms(), Some(9));
}

#[test]
fn scores_of_two_logs_add_up() {
    let first = parse_shorthand("3c 2f 1g\nb 8g").unwrap();
    let second = parse_shorthand("1g\n1gx 1r 1g").unwrap();
    let both: Vec<LogEntry> = first.iter().chain(second.iter()).cloned().collect();
    let events = |log: &[LogEntry]| -> Vec<Event> {
        log.iter()
            .filter_map(|entry| match entry {
                LogEntry::Event(event) => Some(event.clone()),
                _ => None,
            })
            .collect()
    };
    let a = derive_score(&events(&first));
    let b = derive_score(&events(&second));
    let total = derive_score(&events(&both));
    assert_eq!(total.team_a, a.team_a + b.team_a);
    assert_eq!(total.team_b, a.team_b + b.team_b);
    assert_eq!(total, Score { team_a: 3, team_b: 1 });
}

#[test]
fn quarter_scores_sum_to_the_match_score() {
    let log = parse_shorthand("1g\nb 8g\nQT\n1g 1g\nQT\nQT\nb 2g").unwrap();
    let quarters = derive_quarter_scores(&log);
    assert_eq!(
        quarters,
        vec![
            Score { team_a: 1, team_b: 1 },
            Score { team_a: 2, team_b: 0 },
            Score { team_a: 0, team_b: 0 },
            Score { team_a: 0, team_b: 1 },
        ]
    );
    let report = derive_stats(&log);
    assert_eq!(report.score, Score { team_a: 3, team_b: 2 });
    assert_eq!(report.quarter_scores, quarters);
}

#[test]
fn an_empty_log_is_one_goalless_quarter() {
    assert_eq!(derive_quarter_scores(&[]), vec![Score { team_a: 0, team_b: 0 }]);
}

#[test]
fn a_substitution_changes_only_its_own_position_and_team() {
    let before = vec![
        timed_sub(Team::A, CourtPosition::GS, "Alice", 0),
        timed_sub(Team::A, CourtPosition::GA, "Beth", 0),
        timed_sub(Team::B, CourtPosition::GS, "Zoe", 0),
    ];
    let mut after = before.clone();
    after.push(timed_sub(Team::A, CourtPosition::GS, "Eve", 10));
    let roster = derive_roster(&after, Team::A);
    assert_eq!(roster.player_at(CourtPosition::GS), Some("Eve"));
    assert_eq!(roster.player_at(CourtPosition::GA), Some("Beth"));
    assert_eq!(derive_roster(&after, Team::B), derive_roster(&before, Team::B));
}

#[test]
fn attributions_run_parallel_to_the_log() {
    let log = vec![
        timed_sub(Team::A, CourtPosition::GS, "Alice", 0),
        timed_goal(Team::A, 1),
        LogEntry::QuarterBreak(QuarterBreak { timestamp_ms: Some(2) }),
        timed_goal(Team::B, 3),
    ];
    let attributions = derive_attributions(&log);
    assert_eq!(attributions.len(), log.len());
    assert_eq!(attributions, vec![None, Some("Alice".to_string()), None, None]);
}

#[test]
fn playing_time_lists_each_player_once_across_positions() {
    let log = vec![
        timed_sub(Team::A, CourtPosition::GS, "Alice", 0),
        timed_sub(Team::A, CourtPosition::GA, "Beth", 0),
        timed_sub(Team::A, CourtPosition::GS, "Beth", 100),
        timed_sub(Team::A, CourtPosition::GA, "Alice", 100),
        timed_goal(Team::A, 250),
    ];
    let times = derive_playing_time(&log, Team::A).unwrap();
    assert_eq!(times.len(), 2);
    assert_eq!(times[0].player, "Alice");
    assert_eq!(times[0].milliseconds, 250);
    assert_eq!(times[1].player, "Beth");
    assert_eq!(times[1].milliseconds, 250);
}

#[test]
fn playing_time_is_withheld_only_for_a_team_with_an_untimed_substitution() {
    let log = vec![
        timed_sub(Team::A, CourtPosition::GS, "Alice", 0),
        LogEntry::Substitution(Substitution {
            team: Team::B,
            position: CourtPosition::GS,
            player: "Zoe".to_string(),
            timestamp_ms: None,
        }),
        timed_goal(Team::A, 40),
    ];
    assert_eq!(derive_playing_time(&log, Team::B), None);
    let times = derive_playing_time(&log, Team::A).unwrap();
    assert_eq!(times.len(), 1);
    assert_eq!(times[0].milliseconds, 40);
}

#[test]
fn counts_are_the_same_without_timestamps() {
    let log = vec![
        timed_sub(Team::A, CourtPosition::GS, "Alice", 0),
        timed_sub(Team::A, CourtPosition::GA, "Beth", 0),
        LogEntry::Event(Event {
            team: Team::A,
            action: Action::Feed {
                position: FeedPosition::GA,
                failed: false,
            },
            flagged: false,
            timestamp_ms: Some(5),
        }),
        timed_goal(Team::A, 6),
        timed_goal(Team::B, 7),
    ];
    let timed = derive_stats(&log);
    let stripped = derive_stats(&untimed(&log));
    assert_eq!(stripped.score, timed.score);
    assert_eq!(stripped.quarter_scores, timed.quarter_scores);
    for (s, t) in stripped.teams.iter().zip(timed.teams.iter()) {
        assert_eq!(s.conversions, t.conversions);
        assert_eq!(s.players.len(), t.players.len());
        for (sp, tp) in s.players.iter().zip(t.players.iter()) {
            assert_eq!(sp.player, tp.player);
            assert_eq!(sp.goals, tp.goals);
            assert_eq!(sp.feeds, tp.feeds);
            assert_eq!(sp.feeds_with_shot, tp.feeds_with_shot);
            assert_eq!(sp.goal_assists, tp.goal_assists);
        }
    }
    // ...but playing time needs the clock.
    assert!(timed.teams[0].players[0].playing_time_ms.is_some());
    assert_eq!(stripped.teams[0].players[0].playing_time_ms, None);
}

#[test]
fn every_report_line_is_consistent() {
    let mut log = vec![
        timed_sub(Team::A, CourtPosition::GS, "Alice", 0),
        timed_sub(Team::A, CourtPosition::GA, "Beth", 0),
        timed_sub(Team::A, CourtPosition::WA, "Cara", 0),
        timed_sub(Team::A, CourtPosition::C, "Dana", 0),
        timed_sub(Team::A, CourtPosition::GD, "Gwen", 0),
    ];
    log.extend(parse_shorthand("3c 2f 1gx 1r 2f 1g\n6pi 2fx 4f 1g\nb 8g").unwrap());
    let report = derive_stats(&log);
    let alice = &report.teams[0].players[0];
    assert_eq!((alice.goals, alice.shots, alice.attacking_rebounds), (2, 3, 1));
    let beth = &report.teams[0].players[1];
    assert_eq!((beth.feeds, beth.completed_feeds), (3, 2));
    assert_eq!((beth.feeds_with_shot, beth.goal_assists), (2, 1));
    let dana = &report.teams[0].players[3];
    assert_eq!((dana.feeds, dana.feeds_with_shot, dana.goal_assists), (1, 1, 1));
    assert_eq!(report.score, Score { team_a: 2, team_b: 1 });
    for team in &report.teams {
        for player in &team.players {
            assert!(player.goals <= player.shots);
            assert!(player.completed_feeds <= player.feeds);
            assert!(player.feeds_with_shot <= player.feeds);
            assert!(player.goal_assists <= player.feeds_with_shot);
            assert!(
                player.gain_interceptions + player.gain_deflections + player.gain_pick_ups
                    <= player.gains
            );
        }
        assert!(team.conversions.centre_pass_goals <= team.conversions.centre_pass_total);
        assert!(team.conversions.gain_goals <= team.conversions.gain_total);
    }
}

#[test]
fn shorthand_joined_by_a_newline_parses_to_the_joined_logs() {
    let a = "3c 2f 1g (opening goal)";
    let b = "b 8g\nQT\n6pd 1g!";
    let joined = format!("{a}\n{b}");
    let mut expected = parse_shorthand(a).unwrap();
    expected.extend(parse_shorthand(b).unwrap());
    assert_eq!(parse_shorthand(&joined).unwrap(), expected);
}

#[test]
fn shorthand_imports_carry_no_timestamps() {
    let log = parse_shorthand("3c 2f 1g\nQT\nb 8g").unwrap();
    assert!(log.iter().all(|entry| entry.timestamp_ms().is_none()));
}

#[test]
fn a_shorthand_error_points_at_a_line_of_the_input() {
    for input in ["1g\n\n9g", "(", "a", "QT 1g", "1gxx", "S", ")", "1", "z"] {
        let error = parse_shorthand(input).unwrap_err();
        let lines = input.split('\n').count();
        assert!(error.line >= 1 && error.line <= lines, "{input:?}");
        assert!(error.column >= 1, "{input:?}");
    }
}

#[test]
fn crlf_line_endings_parse_like_plain_newlines() {
    assert_eq!(
        parse_shorthand("3c 2f 1g\r\nb 8g\r\n").unwrap(),
        parse_shorthand("3c 2f 1g\nb 8g\n").unwrap()
    );
}

#[test]
fn a_possession_ends_at_a_change_of_team() {
    // Team A's possession from the centre pass is cut by B's gain; A then
    // regains with an interception and converts.
    let log = vec![
        LogEntry::Event(Event {
            team: Team::A,
            action: Action::CentrePassReceive {
                position: netball_core::CentrePassReceivePosition::WA,
                failed: false,
            },
            flagged: false,
            timestamp_ms: None,
        }),
        LogEntry::Event(Event {
            team: Team::B,
            action: Action::Gain {
                position: Position::GD,
                sub_type: None,
            },
            flagged: false,
            timestamp_ms: None,
        }),
        LogEntry::Event(Event {
            team: Team::A,
            action: Action::Gain {
                position: Position::WD,
                sub_type: Some(netball_core::GainSubType::Interception),
            },
            flagged: false,
            timestamp_ms: None,
        }),
        LogEntry::Event(Event {
            team: Team::A,
            action: Action::Goal {
                position: GoalPosition::GA,
                failed: false,
            },
            flagged: false,
            timestamp_ms: None,
        }),
    ];
    let report = derive_stats(&log);
    let a = &report.teams[0].conversions;
    assert_eq!((a.centre_pass_total, a.centre_pass_goals), (1, 0));
    assert_eq!((a.gain_total, a.gain_goals), (1, 1));
}

#[test]
fn playing_time_that_overflows_the_clock_is_reported_not_computed() {
    let log = vec![
        timed_sub(Team::A, CourtPosition::GS, "Alice", i64::MIN),
        timed_goal(Team::A, i64::MAX),
    ];
    assert_eq!(netball_core::try_derive_playing_time(&log, Team::A), None);
    // The other team, with no roster, is unaffected.
    assert_eq!(
        netball_core::try_derive_playing_time(&log, Team::B),
        Some(Some(vec![]))
    );
    let fine = vec![
        timed_sub(Team::A, CourtPosition::GS, "Alice", 10),
        timed_goal(Team::A, 25),
    ];
    assert_eq!(
        netball_core::try_derive_playing_time(&fine, Team::A),
        Some(derive_playing_time(&fine, Team::A))
    );
}

#[test]
fn playing_time_lists_players_in_order_of_first_appearance() {
    let log = vec![
        timed_sub(Team::A, CourtPosition::GS, "Alice", 0),
        timed_sub(Team::A, CourtPosition::GA, "Beth", 0),
        timed_sub(Team::A, CourtPosition::GA, "Dana", 100_000),
    ];
    let times = derive_playing_time(&log, Team::A).unwrap();
    let listed: Vec<(&str, i64)> = times
        .iter()
        .map(|time| (time.player.as_str(), time.milliseconds))
        .collect();
    assert_eq!(listed, [("Alice", 100_000), ("Beth", 100_000), ("Dana", 0)]);
}

#[test]
fn an_error_after_good_lines_moves_down_by_their_lines() {
    let a = "3c 2f 1g\nb 8g";
    let b = "1g\n5g";
    let alone = parse_shorthand(b).unwrap_err();
    assert_eq!((alone.line, alone.column), (2, 1));
    let joined = parse_shorthand(&format!("{a}\n{b}")).unwrap_err();
    assert_eq!(joined.line, alone.line + 2);
    assert_eq!(joined.column, alone.column);
    assert_eq!(joined.token, alone.token);
    assert_eq!(joined.kind, alone.kind);
    // An error in the first part wins over anything after it.
    let first = parse_shorthand(&format!("{b}\n{a}")).unwrap_err();
    assert_eq!(first, alone);
}

#[test]
fn available_playing_time_reaches_every_listed_player() {
    let mut log = vec![
        timed_sub(Team::A, CourtPosition::GS, "Alice", 0),
        timed_sub(Team::A, CourtPosition::GA, "Beth", 0),
    ];
    log.extend(parse_shorthand("2f 1g").unwrap());
    log.push(timed_sub(Team::A, CourtPosition::GA, "Dana", 500));
    log.push(timed_goal(Team::A, 800));
    let report = derive_stats(&log);
    let team = &report.teams[0];
    assert!(team.playing_time_available);
    assert_eq!(team.players.len(), 3);
    for player in &team.players {
        assert!(player.playing_time_ms.is_some(), "{}", player.player);
    }
    assert_eq!(team.players[2].playing_time_ms, Some(300));
}

#[test]
fn comments_nest_and_blank_everything_inside_them() {
    assert_eq!(
        parse_shorthand("1g (a (nested) note) 2g").unwrap(),
        parse_shorthand("1g 2g").unwrap()
    );
    let error = parse_shorthand("1g (open (still open) 2g").unwrap_err();
    assert_eq!((error.line, error.column), (1, 4));
    let error = parse_shorthand("1g (note)) 2g").unwrap_err();
    assert_eq!((error.line, error.column), (1, 10));
}

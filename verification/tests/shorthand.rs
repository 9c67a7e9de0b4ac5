use netball_core::{
    parse_shorthand, Action, CentrePassReceivePosition, Event, FeedPosition, GainSubType,
    GoalPosition, LogEntry, Position, QuarterBreak, ReboundPosition, ShorthandError,
    ShorthandErrorKind, Team,
};
use netball_core::taxonomy::ActionKind;

/// Pull the events out of a log, asserting there are no markers.
fn events(log: &[LogEntry]) -> Vec<&Event> {
    log.iter()
        .map(|entry| match entry {
            LogEntry::Event(event) => event,
            other => panic!("expected only events, got {other:?}"),
        })
        .collect()
}

fn only_event(input: &str) -> Event {
    let log = parse_shorthand(input).expect("should parse");
    assert_eq!(log.len(), 1, "expected exactly one entry from {input:?}");
    match &log[0] {
        LogEntry::Event(event) => event.clone(),
        other => panic!("expected an event, got {other:?}"),
    }
}

// --- Every token type ----------------------------------------------------

#[test]
fn each_position_digit_maps_to_its_position() {
    // Unforced turnover is legal for every position, so it isolates the
    // digit→position mapping cleanly across all eight.
    for (digit, position) in ('1'..='8').zip(Position::ALL) {
        let event = only_event(&format!("{digit}e"));
        assert_eq!(event.action.position(), position, "digit {digit}");
    }
}

#[test]
fn each_action_letter_maps_to_its_action() {
    assert_eq!(
        only_event("2c").action,
        Action::CentrePassReceive {
            position: CentrePassReceivePosition::GA,
            failed: false
        }
    );
    assert_eq!(
        only_event("1f").action,
        Action::Feed {
            position: FeedPosition::GS,
            failed: false
        }
    );
    assert_eq!(
        only_event("1g").action,
        Action::Goal {
            position: GoalPosition::GS,
            failed: false
        }
    );
    assert_eq!(
        only_event("4e").action,
        Action::UnforcedTurnover {
            position: Position::C
        }
    );
    assert_eq!(
        only_event("4p").action,
        Action::Gain {
            position: Position::C,
            sub_type: None
        }
    );
    assert_eq!(
        only_event("4i").action,
        Action::Infringement {
            position: Position::C
        }
    );
    assert_eq!(
        only_event("1r").action,
        Action::Rebound {
            position: ReboundPosition::GS
        }
    );
}

#[test]
fn gain_sub_types_parse_and_match_greedily() {
    // The headline example: `1pi` is a GS gain by interception, never a
    // gain (p) followed by an infringement (i).
    assert_eq!(
        only_event("1pi").action,
        Action::Gain {
            position: Position::GS,
            sub_type: Some(GainSubType::Interception)
        }
    );
    assert_eq!(
        only_event("6pd").action,
        Action::Gain {
            position: Position::GD,
            sub_type: Some(GainSubType::Deflection)
        }
    );
    assert_eq!(
        only_event("6pp").action,
        Action::Gain {
            position: Position::GD,
            sub_type: Some(GainSubType::PickUp)
        }
    );
}

#[test]
fn team_position_takes_gains_turnovers_infringements_and_opposition_goals() {
    assert_eq!(
        only_event("8g").action,
        Action::Goal {
            position: GoalPosition::Team,
            failed: false
        }
    );
    assert_eq!(
        only_event("8p").action,
        Action::Gain {
            position: Position::Team,
            sub_type: None
        }
    );
}

// --- Modifiers and stacking ---------------------------------------------

#[test]
fn failed_modifier_marks_the_action() {
    assert_eq!(
        only_event("1gx").action,
        Action::Goal {
            position: GoalPosition::GS,
            failed: true
        }
    );
    assert_eq!(
        only_event("2cx").action,
        Action::CentrePassReceive {
            position: CentrePassReceivePosition::GA,
            failed: true
        }
    );
}

#[test]
fn flagged_modifier_sets_the_event_flag_not_the_action() {
    let event = only_event("1g!");
    assert!(event.flagged);
    assert_eq!(
        event.action,
        Action::Goal {
            position: GoalPosition::GS,
            failed: false
        }
    );
}

#[test]
fn modifiers_stack_in_either_order() {
    for input in ["1gx!", "1g!x"] {
        let event = only_event(input);
        assert!(event.flagged, "{input}");
        assert_eq!(
            event.action,
            Action::Goal {
                position: GoalPosition::GS,
                failed: true
            },
            "{input}"
        );
    }
}

#[test]
fn a_failed_gain_sub_type_can_still_flag() {
    let event = only_event("1pi!");
    assert!(event.flagged);
    assert_eq!(
        event.action,
        Action::Gain {
            position: Position::GS,
            sub_type: Some(GainSubType::Interception)
        }
    );
}

// --- Comments ------------------------------------------------------------

#[test]
fn comments_are_stripped_before_parsing() {
    let log = parse_shorthand("2c (great hands) 2f 1g (top corner)").unwrap();
    let events = events(&log);
    assert_eq!(events.len(), 3);
    assert_eq!(events[0].action.position(), Position::GA);
    assert_eq!(events[2].action.kind(), ActionKind::Goal);
}

#[test]
fn a_line_that_is_only_a_comment_contributes_nothing() {
    let log = parse_shorthand("(warm-up, ignore)\n1g").unwrap();
    assert_eq!(events(&log).len(), 1);
}

#[test]
fn a_comment_can_split_a_token_boundary_without_merging_tokens() {
    // The blanked comment still separates the two tokens.
    let log = parse_shorthand("1g(nice)2f").unwrap();
    let events = events(&log);
    assert_eq!(events.len(), 2);
    assert_eq!(events[0].action.kind(), ActionKind::Goal);
    assert_eq!(events[1].action.kind(), ActionKind::Feed);
}

// --- Markers -------------------------------------------------------------

#[test]
fn qt_becomes_a_quarter_break() {
    let log = parse_shorthand("1g\nQT\n1g").unwrap();
    assert_eq!(log.len(), 3);
    assert!(matches!(log[1], LogEntry::QuarterBreak(_)));
    assert_eq!(log[1].timestamp_ms(), None);
}

// --- Team modes ----------------------------------------------------------

#[test]
fn no_prefix_is_the_single_team_default_of_team_a() {
    for event in events(&parse_shorthand("1g\n2f").unwrap()) {
        assert_eq!(event.team, Team::A);
    }
}

#[test]
fn attached_prefix_sets_the_team_for_the_whole_line() {
    let log = parse_shorthand("a2c 2f\nb8g").unwrap();
    let events = events(&log);
    assert_eq!(events[0].team, Team::A);
    assert_eq!(events[1].team, Team::A);
    assert_eq!(events[2].team, Team::B);
    assert_eq!(events[2].action.position(), Position::Team);
}

#[test]
fn detached_prefix_sets_the_team_for_the_whole_line() {
    let log = parse_shorthand("b 1g 2f").unwrap();
    for event in events(&log) {
        assert_eq!(event.team, Team::B);
    }
    assert_eq!(events(&log).len(), 2);
}

#[test]
fn timestamps_are_always_absent_on_import() {
    let log = parse_shorthand("a2c 2f 1g\nQT\nb8g").unwrap();
    for entry in &log {
        assert_eq!(entry.timestamp_ms(), None);
    }
}

#[test]
fn blank_lines_are_ignored() {
    let log = parse_shorthand("1g\n\n   \n2f\n").unwrap();
    assert_eq!(events(&log).len(), 2);
}

// --- Malformed inputs: each asserts the pinpointed position --------------

fn error(input: &str) -> ShorthandError {
    parse_shorthand(input).expect_err("should fail to parse")
}

#[test]
fn an_unknown_action_points_at_the_letter() {
    let err = error("1z");
    assert_eq!((err.line, err.column), (1, 2));
    assert_eq!(err.kind, ShorthandErrorKind::UnknownAction { found: 'z' });
}

#[test]
fn a_token_without_a_position_points_at_its_start() {
    let err = error("g1");
    assert_eq!((err.line, err.column), (1, 1));
    assert_eq!(err.kind, ShorthandErrorKind::MissingPosition);
}

#[test]
fn a_position_digit_out_of_range_is_reported() {
    let err = error("9g");
    assert_eq!((err.line, err.column), (1, 1));
    assert_eq!(err.kind, ShorthandErrorKind::InvalidPosition { digit: '9' });
    assert_eq!(error("0g").kind, ShorthandErrorKind::InvalidPosition { digit: '0' });
}

#[test]
fn a_position_with_no_action_points_past_the_digit() {
    let err = error("1");
    assert_eq!((err.line, err.column), (1, 2));
    assert_eq!(err.kind, ShorthandErrorKind::MissingAction);
}

#[test]
fn an_illegal_position_for_the_action_points_at_the_position() {
    // A shot by WD (5) can never exist in the model.
    let err = error("5g");
    assert_eq!((err.line, err.column), (1, 1));
    assert_eq!(
        err.kind,
        ShorthandErrorKind::IllegalPosition {
            position: Position::WD,
            action: ActionKind::Goal
        }
    );
}

#[test]
fn a_receive_by_a_non_receiver_is_rejected() {
    // Centre (4) may not take a centre pass receive.
    assert_eq!(
        error("4c").kind,
        ShorthandErrorKind::IllegalPosition {
            position: Position::C,
            action: ActionKind::CentrePassReceive
        }
    );
}

#[test]
fn failed_on_an_action_that_cannot_fail_is_rejected_at_the_x() {
    // A rebound is by definition a successful regather.
    let err = error("1rx");
    assert_eq!((err.line, err.column), (1, 3));
    assert_eq!(
        err.kind,
        ShorthandErrorKind::FailedNotApplicable {
            action: ActionKind::Rebound
        }
    );
    assert_eq!(
        error("4px").kind,
        ShorthandErrorKind::FailedNotApplicable {
            action: ActionKind::Gain
        }
    );
}

#[test]
fn a_repeated_modifier_is_rejected_at_the_second_one() {
    let err = error("1gxx");
    assert_eq!((err.line, err.column), (1, 4));
    assert_eq!(err.kind, ShorthandErrorKind::DuplicateModifier { modifier: 'x' });
    assert_eq!(error("1g!!").kind, ShorthandErrorKind::DuplicateModifier { modifier: '!' });
}

#[test]
fn trailing_junk_after_an_event_points_at_it() {
    let err = error("1gz");
    assert_eq!((err.line, err.column), (1, 3));
    assert_eq!(err.kind, ShorthandErrorKind::UnexpectedTrailing { found: 'z' });
}

#[test]
fn qt_with_extra_tokens_points_at_the_extra() {
    let err = error("QT 1g");
    assert_eq!((err.line, err.column), (1, 4));
    assert_eq!(err.kind, ShorthandErrorKind::QuarterBreakNotAlone);
}

#[test]
fn a_lone_team_prefix_is_an_empty_possession() {
    let err = error("a");
    assert_eq!((err.line, err.column), (1, 1));
    assert_eq!(err.kind, ShorthandErrorKind::EmptyPossession { prefix: 'a' });
}

#[test]
fn a_substitution_marker_is_reported_as_unsupported() {
    let err = error("1g\nS");
    assert_eq!(err.line, 2);
    assert_eq!(err.kind, ShorthandErrorKind::SubstitutionNotSupported);
}

#[test]
fn an_unclosed_comment_points_at_the_open_paren() {
    let err = error("1g (oops");
    assert_eq!((err.line, err.column), (1, 4));
    assert_eq!(err.kind, ShorthandErrorKind::UnclosedComment);
}

#[test]
fn an_unmatched_close_paren_points_at_it() {
    let err = error("1g )");
    assert_eq!((err.line, err.column), (1, 4));
    assert_eq!(err.kind, ShorthandErrorKind::UnmatchedCommentClose);
}

#[test]
fn the_error_line_is_the_line_the_token_is_on() {
    let err = error("1g\n2f\n5g\n1c");
    assert_eq!(err.line, 3);
    assert_eq!(err.column, 1);
    assert_eq!(err.kind, ShorthandErrorKind::IllegalPosition {
        position: Position::WD,
        action: ActionKind::Goal,
    });
}

#[test]
fn the_column_accounts_for_a_stripped_comment_earlier_on_the_line() {
    // The comment is blanked in place, so the bad token keeps its column.
    let err = error("1g (nice pass) 5g");
    assert_eq!((err.line, err.column), (1, 16));
    assert_eq!(err.kind, ShorthandErrorKind::IllegalPosition {
        position: Position::WD,
        action: ActionKind::Goal,
    });
}

#[test]
fn a_bad_token_after_an_attached_prefix_keeps_its_column() {
    // `a` is consumed; the fault is the `9` at column 2.
    let err = error("a9g");
    assert_eq!((err.line, err.column), (1, 2));
    assert_eq!(err.kind, ShorthandErrorKind::InvalidPosition { digit: '9' });
}

#[test]
fn no_partial_log_is_returned_on_failure() {
    // Good events precede the bad one, but the whole parse fails.
    assert!(parse_shorthand("1g\n2f\n5g").is_err());
}

#[test]
fn the_display_message_names_the_line_and_column() {
    let message = error("1g\n5g").to_string();
    assert!(message.contains("Line 2"));
    assert!(message.contains("column 1"));
    assert!(message.to_lowercase().contains("gs") || message.contains("WD"));
}

// --- A whole realistic transcription --------------------------------------

#[test]
fn a_two_team_transcription_parses_end_to_end() {
    let input = "\
a2c 2f 1g (opening goal)
b 3c 8g
QT
a2c 1gx 1r 1g
b8g";
    let log = parse_shorthand(input).unwrap();
    // 3 + 2 + break + 4 + 1 = 11 entries.
    assert_eq!(log.len(), 11);
    assert!(matches!(log[5], LogEntry::QuarterBreak(_)));
    // The missed shot then rebound then goal in team A's second possession.
    assert_eq!(
        events(&[log[7].clone()])[0].action,
        Action::Goal { position: GoalPosition::GS, failed: true }
    );
}

use netball_core::taxonomy::ActionKind;
use netball_core::{parse_shorthand, Position, ShorthandErrorKind};

#[test]
fn each_error_kind_reads_as_a_sentence_for_the_coder() {
    let cases = [
        (
            ShorthandErrorKind::MissingPosition,
            "expected a position digit 1–8 to start the event",
        ),
        (
            ShorthandErrorKind::InvalidPosition { digit: '9' },
            "'9' is not a position; use 1–8 (GS, GA, WA, C, WD, GD, GK, TEAM)",
        ),
        (
            ShorthandErrorKind::MissingAction,
            "this position needs an action (c f g e p pi pd pp i r)",
        ),
        (
            ShorthandErrorKind::UnknownAction { found: 'z' },
            "'z' is not an action; expected one of c f g e p pi pd pp i r",
        ),
        (
            ShorthandErrorKind::IllegalPosition {
                position: Position::WD,
                action: ActionKind::Goal,
            },
            "a goal cannot be coded for WD",
        ),
        (
            ShorthandErrorKind::IllegalPosition {
                position: Position::Team,
                action: ActionKind::CentrePassReceive,
            },
            "a centre pass receive cannot be coded for TEAM",
        ),
        (
            ShorthandErrorKind::FailedNotApplicable {
                action: ActionKind::UnforcedTurnover,
            },
            "an unforced turnover cannot be marked failed (x)",
        ),
        (
            ShorthandErrorKind::DuplicateModifier { modifier: '!' },
            "modifier '!' is repeated",
        ),
        (
            ShorthandErrorKind::UnexpectedTrailing { found: 'q' },
            "unexpected 'q' after the event",
        ),
        (
            ShorthandErrorKind::QuarterBreakNotAlone,
            "a quarter break (QT) must be on its own line",
        ),
        (
            ShorthandErrorKind::EmptyPossession { prefix: 'b' },
            "team prefix 'b' must be followed by at least one event",
        ),
        (
            ShorthandErrorKind::SubstitutionNotSupported,
            "substitution markers (S) are not supported by Shorthand import yet",
        ),
        (
            ShorthandErrorKind::UnclosedComment,
            "this '(' comment is never closed",
        ),
        (
            ShorthandErrorKind::UnmatchedCommentClose,
            "this ')' has no matching '('",
        ),
    ];
    for (kind, message) in cases {
        assert_eq!(kind.to_string(), message);
    }
}

#[test]
fn an_error_message_leads_with_its_line_and_column() {
    let error = parse_shorthand("1g\n5g").unwrap_err();
    assert_eq!(error.to_string(), "Line 2, column 1: a goal cannot be coded for WD");
    let error = parse_shorthand("3c 2f 1g\n3c 12f").unwrap_err();
    assert_eq!(error.line, 2);
    assert_eq!(error.column, 5);
    assert_eq!(
        error.to_string(),
        "Line 2, column 5: '2' is not an action; expected one of c f g e p pi pd pp i r"
    );
}

#[test]
fn a_multi_digit_line_number_renders_in_full() {
    let mut input = String::new();
    for _ in 0..11 {
        input.push_str("1g\n");
    }
    input.push_str("1z");
    let error = parse_shorthand(&input).unwrap_err();
    assert_eq!(
        error.to_string(),
        "Line 12, column 2: 'z' is not an action; expected one of c f g e p pi pd pp i r"
    );
}

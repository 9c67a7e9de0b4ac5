use netball_core::{
    Action, Event, GoalPosition, LogEntry, MatchFile, MatchFileError, QuarterBreak, Team,
    MATCH_FILE_VERSION,
};

fn sample_match() -> MatchFile {
    MatchFile {
        team_a_name: "Hornets U13".to_string(),
        team_b_name: "Riverside".to_string(),
        date: "2026-07-10".to_string(),
        log: vec![
            LogEntry::Event(Event {
                team: Team::A,
                action: Action::Goal {
                    position: GoalPosition::GS,
                    failed: false,
                },
                flagged: false,
                timestamp_ms: Some(2_000),
            }),
            LogEntry::QuarterBreak(QuarterBreak {
                timestamp_ms: Some(3_000),
            }),
        ],
    }
}

#[test]
fn the_current_version_is_one() {
    assert_eq!(MATCH_FILE_VERSION, 1);
}

#[test]
fn only_the_current_version_passes_the_envelope_check() {
    assert_eq!(MatchFile::check_version(Some(Some(1))), Ok(()));
    assert_eq!(
        MatchFile::check_version(Some(Some(2))),
        Err(MatchFileError::UnsupportedVersion { found: 2 })
    );
    assert_eq!(
        MatchFile::check_version(Some(Some(0))),
        Err(MatchFileError::UnsupportedVersion { found: 0 })
    );
    assert_eq!(MatchFile::check_version(Some(None)), Err(MatchFileError::Malformed));
    assert_eq!(MatchFile::check_version(None), Err(MatchFileError::Malformed));
}

#[test]
fn a_current_file_with_valid_contents_imports_whole() {
    let imported = MatchFile::import(Some(Some(1)), Some(sample_match()));
    assert_eq!(imported, Ok(sample_match()));
}

#[test]
fn the_version_is_reported_before_the_contents() {
    // A newer file is unsupported whatever its contents look like.
    assert_eq!(
        MatchFile::import(Some(Some(7)), None),
        Err(MatchFileError::UnsupportedVersion { found: 7 })
    );
    assert_eq!(
        MatchFile::import(Some(Some(7)), Some(sample_match())),
        Err(MatchFileError::UnsupportedVersion { found: 7 })
    );
}

#[test]
fn missing_version_or_bad_contents_are_malformed() {
    assert_eq!(
        MatchFile::import(Some(None), Some(sample_match())),
        Err(MatchFileError::Malformed)
    );
    assert_eq!(MatchFile::import(None, None), Err(MatchFileError::Malformed));
    assert_eq!(MatchFile::import(Some(Some(1)), None), Err(MatchFileError::Malformed));
}

#[test]
fn an_unsupported_version_message_names_the_version_and_the_fix() {
    let message = MatchFileError::UnsupportedVersion { found: 2 }.to_string();
    assert!(message.contains('2'));
    assert!(message.contains("Update CentrePass"));
    assert_eq!(
        message,
        "This match file is version 2, but this version of CentrePass only understands up to \
         version 1. Update CentrePass and try again."
    );
    assert_eq!(
        MatchFileError::UnsupportedVersion { found: 4_000_000_000 }.to_string(),
        "This match file is version 4000000000, but this version of CentrePass only \
         understands up to version 1. Update CentrePass and try again."
    );
}

#[test]
fn the_malformed_message_is_for_a_coder() {
    assert_eq!(
        MatchFileError::Malformed.to_string(),
        "This file isn't a valid CentrePass match file, or it has been corrupted."
    );
}

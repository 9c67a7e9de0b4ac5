//! The Match File: the portable, self-contained representation of one match
//! (its event log plus metadata) and the unit of export, import, backup, and
//! migration.
//!
//! On disk a Match File is a versioned JSON document (`"version": 1`). This
//! module holds the in-memory value, the version this engine understands, and
//! the import decision: a candidate file is read for its version envelope
//! before its contents, so a newer format is reported as an unsupported
//! version with its number, and anything unreadable as malformed, with no
//! partial match ever produced. Turning JSON text into the two readings that
//! the decision takes is the JSON layer's work.

use vstd::prelude::*;

use crate::event::LogEntry;
use crate::text::{chars_of, decimal, push_decimal, push_str, string_from_chars};

verus! {

/// The Match File format version this engine reads and writes. Any other
/// version is refused on import.
pub const MATCH_FILE_VERSION: u32 = 1;

/// One match in its portable form: the append-only log that is the only stored
/// truth, plus the metadata needed to name and date it. The `version` envelope
/// is not part of this in-memory value: it is written with the file and
/// checked on import.
#[derive(Debug, Clone, PartialEq)]
pub struct MatchFile {
    /// Name of team A: the active team, coded in detail.
    pub team_a_name: String,
    /// Name of team B: the opposition.
    pub team_b_name: String,
    /// Match date, `YYYY-MM-DD`.
    pub date: String,
    /// The append-only log: coded events plus quarter and substitution markers.
    pub log: Vec<LogEntry>,
}

/// Why a candidate Match File could not be imported. The message from
/// [`MatchFileError::to_string`] is written for a coder to read, not a
/// developer.
#[derive(Debug, Clone, Copy, PartialEq, Eq, Structural)]
pub enum MatchFileError {
    /// A Match File from a version this engine does not understand: almost
    /// always a newer app that wrote a format this one predates.
    UnsupportedVersion { found: u32 },
    /// Not a Match File at all, or one whose contents are corrupt: invalid
    /// JSON, a missing version, or an event the model rejects.
    Malformed,
}

/// The message shown for an import error.
pub open spec fn match_file_error_message(error: MatchFileError) -> Seq<char> {
    match error {
        MatchFileError::UnsupportedVersion { found } => "This match file is version "@ + decimal(
            found as nat,
        ) + ", but this version of CentrePass only understands up to version "@ + decimal(
            MATCH_FILE_VERSION as nat,
        ) + ". Update CentrePass and try again."@,
        MatchFileError::Malformed =>
            "This file isn't a valid CentrePass match file, or it has been corrupted."@,
    }
}

impl MatchFileError {
    /// The human-readable message for this error.
    pub fn to_string(&self) -> (r: String)
        ensures
            r@ == match_file_error_message(*self),
    {
        match self {
            MatchFileError::UnsupportedVersion { found } => {
                let mut out = chars_of("This match file is version ");
                push_decimal(&mut out, *found as u64);
                push_str(&mut out, ", but this version of CentrePass only understands up to version ");
                push_decimal(&mut out, MATCH_FILE_VERSION as u64);
                push_str(&mut out, ". Update CentrePass and try again.");
                string_from_chars(out.as_slice())
            },
            MatchFileError::Malformed => {
                "This file isn't a valid CentrePass match file, or it has been corrupted.".to_owned()
            },
        }
    }
}

/// The outcome of checking a candidate file's version envelope. `envelope` is what a
/// first reading found: `None` when the text is not a JSON document at all,
/// `Some(None)` when it declares no version, `Some(Some(v))` when it declares
/// version `v`. Only the current version passes.
pub open spec fn version_outcome(envelope: Option<Option<u32>>) -> Result<(), MatchFileError> {
    match envelope {
        Some(Some(version)) => if version == MATCH_FILE_VERSION {
            Ok(())
        } else {
            Err(MatchFileError::UnsupportedVersion { found: version })
        },
        _ => Err(MatchFileError::Malformed),
    }
}

/// The outcome of importing a candidate file, from its version envelope and
/// the full reading of its contents (`None` when they do not form a valid
/// match). The version is checked first; the contents only once it passes.
pub open spec fn import_outcome(envelope: Option<Option<u32>>, contents: Option<MatchFile>) -> Result<
    MatchFile,
    MatchFileError,
> {
    match version_outcome(envelope) {
        Err(error) => Err(error),
        Ok(()) => match contents {
            Some(match_file) => Ok(match_file),
            None => Err(MatchFileError::Malformed),
        },
    }
}

impl MatchFile {
    /// Check a candidate file's version envelope (see [`version_outcome`]):
    /// a file is read further only if this passes.
    pub fn check_version(envelope: Option<Option<u32>>) -> (r: Result<(), MatchFileError>)
        ensures
            r == version_outcome(envelope),
    {
        match envelope {
            Some(Some(version)) => if version == MATCH_FILE_VERSION {
                Ok(())
            } else {
                Err(MatchFileError::UnsupportedVersion { found: version })
            },
            _ => Err(MatchFileError::Malformed),
        }
    }

    /// Import a candidate file from its version envelope and the full reading
    /// of its contents: the match itself when the version is the current one
    /// and the contents are valid, and otherwise the error that explains why,
    /// the version's before the contents'. No value is produced on any error.
    pub fn import(envelope: Option<Option<u32>>, contents: Option<MatchFile>) -> (r: Result<
        MatchFile,
        MatchFileError,
    >)
        ensures
            r == import_outcome(envelope, contents),
    {
        match MatchFile::check_version(envelope) {
            Err(error) => Err(error),
            Ok(()) => match contents {
                Some(match_file) => Ok(match_file),
                None => Err(MatchFileError::Malformed),
            },
        }
    }
}

/// An imported file is never partial: a file is accepted exactly when it
/// declares the current version and its contents read as a valid match, and
/// then the match is exactly what was read.
pub proof fn lemma_import_is_all_or_nothing(envelope: Option<Option<u32>>, contents: Option<MatchFile>)
    ensures
        import_outcome(envelope, contents) is Ok <==> (envelope == Some(Some(MATCH_FILE_VERSION))
            && contents is Some),
        import_outcome(envelope, contents) is Ok ==> import_outcome(envelope, contents) == Ok::<
            MatchFile,
            MatchFileError,
        >(contents->0),
{
}

/// A file that declares any version other than the current one is refused as
/// unsupported, with the number it declared, whatever its contents.
pub proof fn lemma_other_versions_are_reported(version: u32, contents: Option<MatchFile>)
    requires
        version != MATCH_FILE_VERSION,
    ensures
        import_outcome(Some(Some(version)), contents) == Err::<MatchFile, MatchFileError>(
            MatchFileError::UnsupportedVersion { found: version },
        ),
{
}

} // verus!

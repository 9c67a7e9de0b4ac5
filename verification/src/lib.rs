//! Netball match statistics engine: the coded event log of a match and every
//! statistic derived from it, following the NVAC video-analysis taxonomy.
//!
//! The engine is plain data in, data out: the log is the only stored truth,
//! and scores, rosters, playing time and the statistics report are all
//! derived from it.

pub mod definitions;
pub mod event;
pub mod match_file;
pub mod roster;
pub mod score;
pub mod shorthand;
pub mod stats;
pub mod taxonomy;
pub mod text;

pub use definitions::{
    definitions, definitions_markdown, deviations, modifiers, Descriptor, Deviation, Resolution,
    CITATION,
};
pub use event::{
    Action, CentrePassReceivePosition, CourtPosition, Event, FeedPosition, GainSubType,
    GoalPosition, LogEntry, Position, QuarterBreak, ReboundPosition, Substitution, Team,
};
pub use match_file::{MatchFile, MatchFileError, MATCH_FILE_VERSION};
pub use roster::{
    derive_attributions, derive_playing_time, derive_roster, try_derive_playing_time, PlayingTime,
    Roster,
};
pub use score::{derive_quarter_scores, derive_score, Score};
pub use shorthand::{parse_shorthand, ShorthandError, ShorthandErrorKind};
pub use stats::{derive_stats, Conversions, PlayerStats, StatsReport, TeamStats};
pub use taxonomy::{action_taxonomy, ActionKind, ActionKindInfo};

use vstd::prelude::*;

use crate::text::{chars_of, push_str, string_from_chars};

verus! {

/// The event taxonomy this engine implements, with its citation: the netball
/// video analysis consensus (NVAC) taxonomy (Mackay et al. 2023,
/// <https://doi.org/10.1136/bjsports-2022-106187>).
pub const TAXONOMY: &'static str = "NVAC taxonomy (Mackay et al. 2023)";

/// A human-readable identity string for the engine: taxonomy plus crate
/// version.
pub fn engine_description() -> (r: String)
    ensures
        r@ == TAXONOMY@ + " — netball-core v0.1.0"@,
{
    let mut out = chars_of(TAXONOMY);
    push_str(&mut out, " — netball-core v0.1.0");
    string_from_chars(out.as_slice())
}

} // verus!

//! The post-match statistics report: one derivation over the event log
//! producing every per-player and team-level figure the coach reads.
//!
//! Everything here is derived from the log, never stored, and every derived
//! descriptor is computed from possession context, never coded: a Rebound is
//! attacking or defensive by the position that took it; a Feed is a
//! *feed-with-shot* when a shot follows it before the possession ends, and a
//! *Goal Assist* when that shot scores directly (a rebound between feed and
//! goal breaks the link); the conversion rates count possessions that began
//! with a centre pass or a gain and ended in a goal.
//!
//! Count-based statistics stay exact on a timestamp-free log; only Playing
//! Time needs the clock, so it is reported absent, never zeroed or guessed,
//! when the timestamps are missing.

use vstd::prelude::*;

use crate::event::{Action, Event, GainSubType, LogEntry, Position, ReboundPosition, Team};
use crate::roster::{
    attribution_at, derive_attributions, derive_playing_time, first_index, lemma_first_index,
    playing_time_fits, playing_time_of, totals_view, PlayingTime,
};
use crate::score::{
    derive_quarter_scores, derive_score, events_of, goal_count, log_events, quarter_scores_of, Score,
};

verus! {

/// The full statistics report for a match: the score, its quarter-by-quarter
/// breakdown, and one [`TeamStats`] per team.
#[derive(Debug, Clone, PartialEq, Eq)]
pub struct StatsReport {
    pub score: Score,
    pub quarter_scores: Vec<Score>,
    /// One entry per team, in `[Team::A, Team::B]` order.
    pub teams: Vec<TeamStats>,
}

/// One team's statistics: its players' individual lines plus team-level
/// conversion rates.
#[derive(Debug, Clone, PartialEq, Eq)]
pub struct TeamStats {
    pub team: Team,
    /// Players who occupied a position or were credited an event, in order of
    /// first appearance in the log.
    pub players: Vec<PlayerStats>,
    pub conversions: Conversions,
    /// Whether Playing Time could be derived for this team (false when any of
    /// its substitutions lacks a timestamp); when false every player's
    /// `playing_time_ms` is `None`.
    pub playing_time_available: bool,
}

/// One player's derived statistics for a match. Percentages are left to the
/// caller (`goals / shots`, `completed_feeds / feeds`) so a zero denominator
/// renders as "–" rather than a spurious 0%.
#[derive(Debug, Clone, PartialEq, Eq)]
pub struct PlayerStats {
    pub player: String,
    /// Successful shots (a Goal event without the Failed modifier).
    pub goals: u32,
    /// All shot attempts, made or missed.
    pub shots: u32,
    /// All feeds, complete or incomplete.
    pub feeds: u32,
    /// Feeds that reached the shooter (a Feed without the Failed modifier).
    pub completed_feeds: u32,
    /// Feeds followed by a shot before the possession ended (derived).
    pub feeds_with_shot: u32,
    /// Feeds that led directly to a goal, with no rebound in between
    /// (derived).
    pub goal_assists: u32,
    /// Rebounds taken under the attacking post (by GS or GA).
    pub attacking_rebounds: u32,
    /// Rebounds taken under the defensive post (by GD or GK).
    pub defensive_rebounds: u32,
    pub unforced_turnovers: u32,
    pub infringements: u32,
    /// All gains, whatever the sub-type (or none).
    pub gains: u32,
    pub gain_interceptions: u32,
    pub gain_deflections: u32,
    pub gain_pick_ups: u32,
    /// Milliseconds on court, or `None` when Playing Time is unavailable for
    /// the team (a timestamp-free log).
    pub playing_time_ms: Option<i64>,
}

/// A team's possession-conversion rates: how many possessions that started a
/// given way ended in a goal.
#[derive(Debug, Clone, Copy, PartialEq, Eq, Structural)]
pub struct Conversions {
    /// Possessions that began with a centre pass receive.
    pub centre_pass_total: u32,
    /// ...of which ended in a goal.
    pub centre_pass_goals: u32,
    /// Possessions that began with a gain.
    pub gain_total: u32,
    /// ...of which ended in a goal.
    pub gain_goals: u32,
}

impl Default for Conversions {
    fn default() -> (r: Conversions)
        ensures
            r == (Conversions { centre_pass_total: 0, centre_pass_goals: 0, gain_total: 0, gain_goals: 0 }),
    {
        Conversions { centre_pass_total: 0, centre_pass_goals: 0, gain_total: 0, gain_goals: 0 }
    }
}

// ---------------------------------------------------------------------------
// Possessions
// ---------------------------------------------------------------------------

/// Whether this action, once recorded, ends the active team's possession: a
/// made goal, an unforced turnover, or an infringement (the team has to win
/// the ball back first, which the log records as a new gain or centre pass).
pub open spec fn ends_possession_spec(action: Action) -> bool {
    ||| action.is_goal()
    ||| action is UnforcedTurnover
    ||| action is Infringement
}

/// The state of possession segmentation after a prefix of the log: the
/// finished possessions, and the one still open, if any. A possession is a
/// team with the log indices of its events, in order.
pub open spec fn segment(log: Seq<LogEntry>) -> (Seq<(Team, Seq<int>)>, Option<(Team, Seq<int>)>)
    decreases log.len(),
{
    if log.len() == 0 {
        (seq![], None)
    } else {
        let (done, current) = segment(log.drop_last());
        let index = log.len() - 1;
        match log.last() {
            LogEntry::QuarterBreak(_) => match current {
                Some(p) => (done.push(p), None),
                None => (done, None),
            },
            LogEntry::Substitution(_) => (done, current),
            LogEntry::Event(event) => {
                let (done2, open) = match current {
                    Some(p) => if p.0 == event.team {
                        (done, p)
                    } else {
                        (done.push(p), (event.team, seq![]))
                    },
                    None => (done, (event.team, seq![])),
                };
                let extended = (open.0, open.1.push(index));
                if ends_possession_spec(event.action) {
                    (done2.push(extended), None)
                } else {
                    (done2, Some(extended))
                }
            },
        }
    }
}

/// The log's events split into possessions in match order: maximal runs of
/// one team's consecutive events, also ended by a made goal, an unforced
/// turnover, an infringement, or a quarter break. Substitutions are
/// transparent.
pub open spec fn possessions_of(log: Seq<LogEntry>) -> Seq<(Team, Seq<int>)> {
    let (done, current) = segment(log);
    match current {
        Some(p) => done.push(p),
        None => done,
    }
}

/// Every possession is non-empty, and each of its indices points at an
/// event of its team within the log.
pub open spec fn well_formed_possession(log: Seq<LogEntry>, p: (Team, Seq<int>)) -> bool {
    &&& p.1.len() > 0
    &&& forall|k: int|
        0 <= k < p.1.len() ==> {
            &&& 0 <= #[trigger] p.1[k] < log.len()
            &&& log[p.1[k]] matches LogEntry::Event(event) && event.team == p.0
        }
}

/// The total number of event indices held by a list of possessions.
pub open spec fn total_len(ps: Seq<(Team, Seq<int>)>) -> nat
    decreases ps.len(),
{
    if ps.len() == 0 {
        0
    } else {
        total_len(ps.drop_last()) + ps.last().1.len()
    }
}

proof fn lemma_total_len_push(ps: Seq<(Team, Seq<int>)>, p: (Team, Seq<int>))
    ensures
        total_len(ps.push(p)) == total_len(ps) + p.1.len(),
{
    assert(ps.push(p).drop_last() == ps);
}

proof fn lemma_segment_shape(log: Seq<LogEntry>)
    ensures
        ({
            let (done, current) = segment(log);
            &&& forall|k: int| 0 <= k < done.len() ==> well_formed_possession(log, #[trigger] done[k])
            &&& current matches Some(p) ==> well_formed_possession(log, p)
            &&& total_len(done) + (match current { Some(p) => p.1.len(), None => 0nat }) == events_of(log).len()
        }),
    decreases log.len(),
{
    if log.len() > 0 {
        let prefix = log.drop_last();
        lemma_segment_shape(prefix);
        let (done, current) = segment(prefix);
        let index = log.len() - 1;
        assert forall|i: int| 0 <= i < prefix.len() implies prefix[i] == log[i] by {}
        assert forall|k: int| 0 <= k < done.len() implies well_formed_possession(log, #[trigger] done[k]) by {
            assert(well_formed_possession(prefix, done[k]));
        }
        if let Some(p) = current {
            assert(well_formed_possession(prefix, p));
            assert(well_formed_possession(log, p));
            lemma_total_len_push(done, p);
        }
        match log.last() {
            LogEntry::Event(event) => {
                assert(events_of(log) == events_of(prefix).push(event));
                let (done2, open) = match current {
                    Some(p) => if p.0 == event.team {
                        (done, p)
                    } else {
                        (done.push(p), (event.team, seq![]))
                    },
                    None => (done, (event.team, seq![])),
                };
                let extended = (open.0, open.1.push(index));
                assert(well_formed_possession(log, extended)) by {
                    assert forall|k: int| 0 <= k < extended.1.len() implies {
                        &&& 0 <= #[trigger] extended.1[k] < log.len()
                        &&& log[extended.1[k]] matches LogEntry::Event(e) && e.team == extended.0
                    } by {
                        if k < open.1.len() {
                            assert(extended.1[k] == open.1[k]);
                        }
                    }
                }
                lemma_total_len_push(done2, extended);
                if let Some(p) = current {
                    lemma_total_len_push(done, p);
                }
            },
            _ => {
                assert(events_of(log) == events_of(prefix));
            },
        }
    }
}

/// Every possession is well formed, and together they hold exactly the log's
/// events: so their total size is the number of events.
pub proof fn lemma_possessions_shape(log: Seq<LogEntry>)
    ensures
        forall|k: int| 0 <= k < possessions_of(log).len() ==> well_formed_possession(log, #[trigger] possessions_of(log)[k]),
        total_len(possessions_of(log)) == events_of(log).len(),
{
    lemma_segment_shape(log);
    let (done, current) = segment(log);
    if let Some(p) = current {
        lemma_total_len_push(done, p);
    }
}

/// Whether entry `i` is an event that ends its team's possession.
pub open spec fn ends_at(log: Seq<LogEntry>, i: int) -> bool {
    log[i] matches LogEntry::Event(event) && ends_possession_spec(event.action)
}

/// Whether a quarter break lies strictly between entries `i` and `j`.
pub open spec fn break_between(log: Seq<LogEntry>, i: int, j: int) -> bool {
    exists|m: int| i < m < j && #[trigger] log[m] is QuarterBreak
}

/// Inside a possession, no event but the last ends it, and no quarter break
/// falls between two of its events.
pub open spec fn unbroken(log: Seq<LogEntry>, p: (Team, Seq<int>)) -> bool {
    forall|a: int|
        0 <= a < p.1.len() - 1 ==> !ends_at(log, #[trigger] p.1[a]) && !break_between(log, p.1[a], p.1[a + 1])
}

/// Why one possession gives way to the next: its last event ended it, a
/// quarter break intervened, or the next event is the other team's.
pub open spec fn boundary(log: Seq<LogEntry>, p: (Team, Seq<int>), q: (Team, Seq<int>)) -> bool {
    ||| ends_at(log, p.1.last())
    ||| break_between(log, p.1.last(), q.1[0])
    ||| p.0 != q.0
}

proof fn lemma_rules_extend(prefix: Seq<LogEntry>, log: Seq<LogEntry>, p: (Team, Seq<int>), q: (Team, Seq<int>))
    requires
        prefix == log.drop_last(),
        log.len() > 0,
        well_formed_possession(prefix, p),
        well_formed_possession(prefix, q),
    ensures
        unbroken(log, p) == unbroken(prefix, p),
        boundary(log, p, q) == boundary(prefix, p, q),
        ends_at(log, p.1.last()) == ends_at(prefix, p.1.last()),
        forall|j: int| j <= prefix.len() ==> break_between(log, p.1.last(), j) == break_between(prefix, p.1.last(), j),
{
    assert forall|i: int| 0 <= i < prefix.len() implies log[i] == prefix[i] by {}
    assert forall|i: int, j: int| 0 <= i && j <= prefix.len() implies break_between(log, i, j) == break_between(prefix, i, j) by {
        if break_between(log, i, j) {
            let m = choose|m: int| i < m < j && #[trigger] log[m] is QuarterBreak;
            assert(prefix[m] is QuarterBreak);
        }
        if break_between(prefix, i, j) {
            let m = choose|m: int| i < m < j && #[trigger] prefix[m] is QuarterBreak;
            assert(log[m] is QuarterBreak);
        }
    }
    assert(p.1[p.1.len() - 1] == p.1.last());
    assert(q.1[0] < prefix.len());
    assert forall|a: int| 0 <= a < p.1.len() - 1 implies ends_at(log, #[trigger] p.1[a]) == ends_at(prefix, p.1[a]) && break_between(log, p.1[a], p.1[a + 1]) == break_between(prefix, p.1[a], p.1[a + 1]) by {
        assert(p.1[a] < prefix.len());
        assert(p.1[a + 1] < prefix.len());
    }
}

/// The rules that segmentation keeps, for the finished possessions `done`
/// and the open one `current`, with `end` the number of entries read.
spec fn segment_rules(log: Seq<LogEntry>, done: Seq<(Team, Seq<int>)>, current: Option<(Team, Seq<int>)>, end: int) -> bool {
    &&& forall|k: int| 0 <= k < done.len() ==> unbroken(log, #[trigger] done[k])
    &&& forall|k: int| 0 <= k < done.len() - 1 ==> boundary(log, #[trigger] done[k], done[k + 1])
    &&& current matches Some(p) ==> {
        &&& unbroken(log, p)
        &&& !ends_at(log, p.1.last())
        &&& !break_between(log, p.1.last(), end)
        &&& done.len() > 0 ==> boundary(log, done.last(), p)
    }
    &&& current is None && done.len() > 0 ==> ends_at(log, done.last().1.last()) || break_between(
        log,
        done.last().1.last(),
        end,
    )
}

/// Reading one more entry leaves the rules about what was read before as
/// they were.
proof fn lemma_segment_rules_extend(log: Seq<LogEntry>)
    requires
        log.len() > 0,
        ({
            let (done, current) = segment(log.drop_last());
            segment_rules(log.drop_last(), done, current, log.len() - 1)
        }),
    ensures
        ({
            let (done, current) = segment(log.drop_last());
            segment_rules(log, done, current, log.len() - 1)
        }),
{
    let prefix = log.drop_last();
    lemma_segment_shape(prefix);
    let (done, current) = segment(prefix);
    assert forall|k: int| 0 <= k < done.len() implies unbroken(log, #[trigger] done[k]) by {
        assert(well_formed_possession(prefix, done[k]));
        lemma_rules_extend(prefix, log, done[k], done[k]);
    }
    assert forall|k: int| 0 <= k < done.len() - 1 implies boundary(log, #[trigger] done[k], done[k + 1]) by {
        assert(well_formed_possession(prefix, done[k]));
        assert(well_formed_possession(prefix, done[k + 1]));
        lemma_rules_extend(prefix, log, done[k], done[k + 1]);
    }
    if done.len() > 0 {
        assert(well_formed_possession(prefix, done[done.len() - 1]));
        assert(done.last() == done[done.len() - 1]);
        lemma_rules_extend(prefix, log, done.last(), done.last());
        if let Some(p) = current {
            lemma_rules_extend(prefix, log, done.last(), p);
        }
    }
    if let Some(p) = current {
        lemma_rules_extend(prefix, log, p, p);
    }
}

/// A quarter break or a substitution keeps the rules.
proof fn lemma_segment_rules_marker(log: Seq<LogEntry>)
    requires
        log.len() > 0,
        !(log.last() is Event),
        ({
            let (done, current) = segment(log.drop_last());
            segment_rules(log, done, current, log.len() - 1)
        }),
    ensures
        ({
            let (done, current) = segment(log);
            segment_rules(log, done, current, log.len() as int)
        }),
{
    let prefix = log.drop_last();
    let index = log.len() - 1;
    lemma_segment_shape(prefix);
    let (done, current) = segment(prefix);
    let (done_now, current_now) = segment(log);
    if let Some(p) = current {
        assert(well_formed_possession(prefix, p));
        assert(p.1[p.1.len() - 1] == p.1.last());
        assert(p.1.last() < index);
    }
    if done.len() > 0 {
        assert(well_formed_possession(prefix, done[done.len() - 1]));
        assert(done.last() == done[done.len() - 1]);
        assert(done.last().1[done.last().1.len() - 1] == done.last().1.last());
        assert(done.last().1.last() < index);
    }
    if log.last() is QuarterBreak {
        assert(log[index] is QuarterBreak);
        if let Some(p) = current {
            assert(done_now == done.push(p));
            assert(break_between(log, p.1.last(), log.len() as int));
            assert forall|k: int| 0 <= k < done_now.len() implies unbroken(log, #[trigger] done_now[k]) by {
                if k < done.len() {
                    assert(done_now[k] == done[k]);
                }
            }
            assert forall|k: int| 0 <= k < done_now.len() - 1 implies boundary(log, #[trigger] done_now[k], done_now[k + 1]) by {
                assert(done_now[k] == done[k]);
                if k + 1 < done.len() {
                    assert(done_now[k + 1] == done[k + 1]);
                }
            }
        } else if done.len() > 0 {
            if !ends_at(log, done.last().1.last()) {
                assert(break_between(log, done.last().1.last(), log.len() as int));
            }
        }
    } else {
        if let Some(p) = current {
            assert(!break_between(log, p.1.last(), log.len() as int)) by {
                if break_between(log, p.1.last(), log.len() as int) {
                    let m = choose|m: int| p.1.last() < m < log.len() && #[trigger] log[m] is QuarterBreak;
                    assert(m != index);
                    assert(break_between(log, p.1.last(), index));
                }
            }
        } else if done.len() > 0 {
            if break_between(log, done.last().1.last(), index) {
                let m = choose|m: int| done.last().1.last() < m < index && #[trigger] log[m] is QuarterBreak;
                assert(break_between(log, done.last().1.last(), log.len() as int));
            }
        }
    }
}

/// An event keeps the rules: it extends the open possession, or starts a
/// new one for a reason the rules name.
#[verifier::rlimit(40)]
proof fn lemma_segment_rules_event(log: Seq<LogEntry>)
    requires
        log.len() > 0,
        log.last() is Event,
        ({
            let (done, current) = segment(log.drop_last());
            segment_rules(log, done, current, log.len() - 1)
        }),
    ensures
        ({
            let (done, current) = segment(log);
            segment_rules(log, done, current, log.len() as int)
        }),
{
    let prefix = log.drop_last();
    let index = log.len() - 1;
    lemma_segment_shape(prefix);
    let (done, current) = segment(prefix);
    let (done_now, current_now) = segment(log);
    let event = log.last()->Event_0;
    assert(log[index] == log.last());
    if let Some(p) = current {
        assert(well_formed_possession(prefix, p));
    }
    let (done2, open) = match current {
        Some(p) => if p.0 == event.team {
            (done, p)
        } else {
            (done.push(p), (event.team, seq![]))
        },
        None => (done, (event.team, seq![])),
    };
    let extended = (open.0, open.1.push(index));
    assert(extended.1.last() == index);
    assert forall|k: int| 0 <= k < done2.len() implies unbroken(log, #[trigger] done2[k]) by {
        if k < done.len() {
            assert(done2[k] == done[k]);
        }
    }
    assert forall|k: int| 0 <= k < done2.len() - 1 implies boundary(log, #[trigger] done2[k], done2[k + 1]) by {
        assert(done2[k] == done[k]);
        if k + 1 < done.len() {
            assert(done2[k + 1] == done[k + 1]);
        }
    }
    assert(unbroken(log, extended)) by {
        assert forall|a: int| 0 <= a < extended.1.len() - 1 implies !ends_at(log, #[trigger] extended.1[a]) && !break_between(log, extended.1[a], extended.1[a + 1]) by {
            assert(extended.1[a] == open.1[a]);
            if a + 1 < open.1.len() {
                assert(extended.1[a + 1] == open.1[a + 1]);
            } else {
                assert(current == Some(open));
                assert(open.1[a] == open.1.last());
                assert(extended.1[a + 1] == index);
            }
        }
    }
    if done2.len() > 0 {
        assert(done2.last() == done2[done2.len() - 1]);
        match current {
            Some(p) => {
                if p.0 == event.team {
                    assert(extended.1[0] == p.1[0]);
                } else {
                    assert(done2.last() == p);
                }
            },
            None => {
                assert(extended.1[0] == index);
            },
        }
        assert(boundary(log, done2.last(), extended));
    }
    if ends_possession_spec(event.action) {
        assert(done_now == done2.push(extended));
        assert(ends_at(log, index));
        assert forall|k: int| 0 <= k < done_now.len() implies unbroken(log, #[trigger] done_now[k]) by {
            if k < done2.len() {
                assert(done_now[k] == done2[k]);
            }
        }
        assert forall|k: int| 0 <= k < done_now.len() - 1 implies boundary(log, #[trigger] done_now[k], done_now[k + 1]) by {
            assert(done_now[k] == done2[k]);
            if k + 1 < done2.len() {
                assert(done_now[k + 1] == done2[k + 1]);
            }
        }
    } else {
        assert(!break_between(log, index, log.len() as int));
    }
}

proof fn lemma_segment_boundaries(log: Seq<LogEntry>)
    ensures
        ({
            let (done, current) = segment(log);
            segment_rules(log, done, current, log.len() as int)
        }),
    decreases log.len(),
{
    if log.len() > 0 {
        lemma_segment_boundaries(log.drop_last());
        lemma_segment_rules_extend(log);
        if log.last() is Event {
            lemma_segment_rules_event(log);
        } else {
            lemma_segment_rules_marker(log);
        }
    }
}

/// The possession boundary rule: inside a possession no event but the last
/// ends it and no quarter break falls between its events; and each
/// possession gives way to the next because its last event (a made goal, an
/// unforced turnover or an infringement) ended it, a quarter break
/// intervened, or the next event is the other team's.
pub proof fn lemma_possession_boundaries(log: Seq<LogEntry>)
    ensures
        forall|k: int| 0 <= k < possessions_of(log).len() ==> unbroken(log, #[trigger] possessions_of(log)[k]),
        forall|k: int|
            0 <= k < possessions_of(log).len() - 1 ==> boundary(
                log,
                #[trigger] possessions_of(log)[k],
                possessions_of(log)[k + 1],
            ),
{
    lemma_segment_boundaries(log);
    let (done, current) = segment(log);
    if let Some(p) = current {
        let ps = done.push(p);
        assert forall|k: int| 0 <= k < ps.len() implies unbroken(log, #[trigger] ps[k]) by {
            if k < done.len() {
                assert(ps[k] == done[k]);
            }
        }
        assert forall|k: int| 0 <= k < ps.len() - 1 implies boundary(log, #[trigger] ps[k], ps[k + 1]) by {
            assert(ps[k] == done[k]);
            if k + 1 < done.len() {
                assert(ps[k + 1] == done[k + 1]);
            } else {
                assert(done.last() == done[k]);
            }
        }
    }
}

/// A maximal run of one team's consecutive events.
struct Possession {
    team: Team,
    /// Log indices of this possession's events, in order.
    events: Vec<usize>,
}

/// The mathematical content of a [`Possession`].
spec fn possession_view(p: Possession) -> (Team, Seq<int>) {
    (p.team, p.events@.map_values(|i: usize| i as int))
}

spec fn possessions_view(ps: Seq<Possession>) -> Seq<(Team, Seq<int>)> {
    ps.map_values(|p: Possession| possession_view(p))
}

/// Whether this action, once recorded, ends the active team's possession.
fn ends_possession(action: &Action) -> (r: bool)
    ensures
        r == ends_possession_spec(*action),
{
    match action {
        Action::Goal { failed: false, .. } | Action::UnforcedTurnover { .. } | Action::Infringement { .. } => true,
        _ => false,
    }
}

/// Split the log's events into possessions in match order.
fn segment_possessions(log: &[LogEntry]) -> (r: Vec<Possession>)
    ensures
        possessions_view(r@) == possessions_of(log@),
{
    let mut possessions: Vec<Possession> = Vec::new();
    let mut current: Option<Possession> = None;
    let mut index: usize = 0;
    while index < log.len()
        invariant
            0 <= index <= log@.len(),
            segment(log@.take(index as int)) == (possessions_view(possessions@), match current {
                Some(p) => Some(possession_view(p)),
                None => None::<(Team, Seq<int>)>,
            }),
        decreases log@.len() - index,
    {
        assert(log@.take(index + 1).drop_last() == log@.take(index as int));
        let ghost before = possessions@;
        match &log[index] {
            LogEntry::QuarterBreak(_) => {
                if let Some(possession) = current.take() {
                    possessions.push(possession);
                    assert(possessions_view(possessions@) =~= possessions_view(before).push(possession_view(possession)));
                }
            },
            LogEntry::Substitution(_) => {},
            LogEntry::Event(event) => {
                let continues = match &current {
                    Some(p) => p.team == event.team,
                    None => false,
                };
                let mut open = if continues {
                    current.take().unwrap()
                } else {
                    if let Some(possession) = current.take() {
                        possessions.push(possession);
                        assert(possessions_view(possessions@) =~= possessions_view(before).push(possession_view(possession)));
                    }
                    let fresh = Possession { team: event.team, events: Vec::new() };
                    assert(possession_view(fresh).1 =~= Seq::<int>::empty());
                    fresh
                };
                let ghost open_before = open.events@;
                open.events.push(index);
                assert(possession_view(open).1 =~= open_before.map_values(|i: usize| i as int).push(index as int));
                let ghost middle = possessions@;
                if ends_possession(&event.action) {
                    possessions.push(open);
                    assert(possessions_view(possessions@) =~= possessions_view(middle).push(possession_view(open)));
                } else {
                    current = Some(open);
                }
            },
        }
        index = index + 1;
    }
    assert(log@.take(log@.len() as int) == log@);
    let ghost before = possessions@;
    if let Some(possession) = current.take() {
        possessions.push(possession);
        assert(possessions_view(possessions@) =~= possessions_view(before).push(possession_view(possession)));
    }
    possessions
}

// ---------------------------------------------------------------------------
// Players and their direct counts
// ---------------------------------------------------------------------------

/// Names that are pairwise different as text.
pub open spec fn distinct_strings(names: Seq<String>) -> bool {
    forall|a: int, b: int| 0 <= a < b < names.len() ==> (#[trigger] names[a])@ != (#[trigger] names[b])@
}

/// Whether a string reads `name`.
pub open spec fn reads(name: Seq<char>) -> spec_fn(String) -> bool {
    |n: String| n@ == name
}

/// Whether `name` is (as text) already in `names`.
pub open spec fn has_name(names: Seq<String>, name: Seq<char>) -> bool {
    first_index(names, reads(name)) >= 0
}

/// `names` with `player` added at the end unless already present.
pub open spec fn note(names: Seq<String>, player: String) -> Seq<String> {
    if has_name(names, player@) {
        names
    } else {
        names.push(player)
    }
}

/// One team's players within the first `n` log entries, in order of first
/// appearance: whether that is a substitution onto court or a credited event.
pub open spec fn players_upto(log: Seq<LogEntry>, team: Team, n: int) -> Seq<String>
    decreases n,
{
    if n <= 0 {
        seq![]
    } else {
        let before = players_upto(log, team, n - 1);
        match log[n - 1] {
            LogEntry::Substitution(substitution) => if substitution.team == team {
                note(before, substitution.player)
            } else {
                before
            },
            LogEntry::Event(event) => if event.team == team {
                match attribution_at(log, n - 1) {
                    Some(player) => note(before, player),
                    None => before,
                }
            } else {
                before
            },
            LogEntry::QuarterBreak(_) => before,
        }
    }
}

/// One team's players, in order of first appearance in the log.
pub open spec fn players_of(log: Seq<LogEntry>, team: Team) -> Seq<String> {
    players_upto(log, team, log.len() as int)
}

/// The direct per-event counts of one player.
pub ghost struct Line {
    pub goals: nat,
    pub shots: nat,
    pub feeds: nat,
    pub completed_feeds: nat,
    pub attacking_rebounds: nat,
    pub defensive_rebounds: nat,
    pub unforced_turnovers: nat,
    pub infringements: nat,
    pub gains: nat,
    pub gain_interceptions: nat,
    pub gain_deflections: nat,
    pub gain_pick_ups: nat,
}

/// The line with every count zero.
pub open spec fn zero_line() -> Line {
    Line {
        goals: 0,
        shots: 0,
        feeds: 0,
        completed_feeds: 0,
        attacking_rebounds: 0,
        defensive_rebounds: 0,
        unforced_turnovers: 0,
        infringements: 0,
        gains: 0,
        gain_interceptions: 0,
        gain_deflections: 0,
        gain_pick_ups: 0,
    }
}

/// A line with one more event credited: a shot (and a goal if made), a feed
/// (and a completed one if not failed), an attacking rebound (GS/GA) or a
/// defensive one (GD/GK), a turnover, an infringement, or a gain (and its
/// sub-type, if coded). A centre pass receive counts toward no line figure.
pub open spec fn bump(line: Line, action: Action) -> Line {
    match action {
        Action::Goal { failed, .. } => Line { shots: line.shots + 1, goals: if failed { line.goals } else { line.goals + 1 }, ..line },
        Action::Feed { failed, .. } => Line { feeds: line.feeds + 1, completed_feeds: if failed { line.completed_feeds } else { line.completed_feeds + 1 }, ..line },
        Action::Rebound { position } => if position == ReboundPosition::GS || position == ReboundPosition::GA {
            Line { attacking_rebounds: line.attacking_rebounds + 1, ..line }
        } else {
            Line { defensive_rebounds: line.defensive_rebounds + 1, ..line }
        },
        Action::UnforcedTurnover { .. } => Line { unforced_turnovers: line.unforced_turnovers + 1, ..line },
        Action::Infringement { .. } => Line { infringements: line.infringements + 1, ..line },
        Action::Gain { sub_type, .. } => match sub_type {
            Some(GainSubType::Interception) => Line { gains: line.gains + 1, gain_interceptions: line.gain_interceptions + 1, ..line },
            Some(GainSubType::Deflection) => Line { gains: line.gains + 1, gain_deflections: line.gain_deflections + 1, ..line },
            Some(GainSubType::PickUp) => Line { gains: line.gains + 1, gain_pick_ups: line.gain_pick_ups + 1, ..line },
            None => Line { gains: line.gains + 1, ..line },
        },
        Action::CentrePassReceive { .. } => line,
    }
}

/// Whether log entry `i` is an event of `team` attributed to `name`.
pub open spec fn credited_to(log: Seq<LogEntry>, team: Team, name: Seq<char>, i: int) -> bool {
    &&& log[i] matches LogEntry::Event(event) && event.team == team
    &&& attribution_at(log, i) matches Some(player) && player@ == name
}

/// The direct counts of the events among the first `n` log entries that
/// `team`'s events credit to the player named `name`.
pub open spec fn line_upto(log: Seq<LogEntry>, team: Team, name: Seq<char>, n: int) -> Line
    decreases n,
{
    if n <= 0 {
        zero_line()
    } else {
        let before = line_upto(log, team, name, n - 1);
        if credited_to(log, team, name, n - 1) {
            bump(before, log[n - 1]->Event_0.action)
        } else {
            before
        }
    }
}

/// Every count of a line is at most `bound`.
pub open spec fn line_bounded(line: Line, bound: int) -> bool {
    &&& line.goals <= bound
    &&& line.shots <= bound
    &&& line.feeds <= bound
    &&& line.completed_feeds <= bound
    &&& line.attacking_rebounds <= bound
    &&& line.defensive_rebounds <= bound
    &&& line.unforced_turnovers <= bound
    &&& line.infringements <= bound
    &&& line.gains <= bound
    &&& line.gain_interceptions <= bound
    &&& line.gain_deflections <= bound
    &&& line.gain_pick_ups <= bound
}

proof fn lemma_line_bounded(log: Seq<LogEntry>, team: Team, name: Seq<char>, n: int)
    requires
        n >= 0,
    ensures
        line_bounded(line_upto(log, team, name, n), n),
    decreases n,
{
    if n > 0 {
        lemma_line_bounded(log, team, name, n - 1);
    }
}

proof fn lemma_note_distinct(names: Seq<String>, player: String)
    requires
        distinct_strings(names),
    ensures
        distinct_strings(note(names, player)),
        has_name(note(names, player), player@),
        forall|name: Seq<char>| has_name(names, name) ==> has_name(note(names, player), name),
{
    let pred = reads(player@);
    lemma_first_index(names, pred);
    let result = note(names, player);
    assert forall|a: int, b: int| 0 <= a < b < result.len() implies (#[trigger] result[a])@ != (#[trigger] result[b])@ by {
        if b == names.len() {
            assert(!pred(names[a]));
        }
    }
    if !has_name(names, player@) {
        lemma_first_index(result, pred);
        assert(pred(result[names.len() as int]));
    }
    assert forall|name: Seq<char>| has_name(names, name) implies has_name(note(names, player), name) by {
        let q = reads(name);
        lemma_first_index(names, q);
        lemma_first_index(result, q);
        let k = first_index(names, q);
        assert(q(result[k]));
    }
}

/// The players list never repeats a name, and keeps every name it has
/// seen: a player noted by entry `i` is in the list of every longer prefix.
proof fn lemma_players_upto(log: Seq<LogEntry>, team: Team, n: int)
    ensures
        distinct_strings(players_upto(log, team, n)),
        forall|m: int, name: Seq<char>| 0 <= m <= n && #[trigger] has_name(players_upto(log, team, m), name) ==> has_name(players_upto(log, team, n), name),
    decreases n,
{
    if n > 0 {
        lemma_players_upto(log, team, n - 1);
        let before = players_upto(log, team, n - 1);
        match log[n - 1] {
            LogEntry::Substitution(substitution) => {
                lemma_note_distinct(before, substitution.player);
            },
            LogEntry::Event(event) => {
                if let Some(player) = attribution_at(log, n - 1) {
                    lemma_note_distinct(before, player);
                }
            },
            _ => {},
        }
    }
}

/// Every player credited with one of `team`'s events is in the team's
/// players list.
proof fn lemma_credited_player_listed(log: Seq<LogEntry>, team: Team, i: int)
    requires
        0 <= i < log.len(),
        log[i] matches LogEntry::Event(event) && event.team == team,
        attribution_at(log, i) is Some,
    ensures
        has_name(players_of(log, team), attribution_at(log, i)->Some_0@),
{
    let player = attribution_at(log, i)->Some_0;
    lemma_players_upto(log, team, i);
    lemma_note_distinct(players_upto(log, team, i), player);
    assert(players_upto(log, team, i + 1) == note(players_upto(log, team, i), player));
    assert(has_name(players_upto(log, team, i + 1), player@));
    lemma_players_upto(log, team, log.len() as int);
}

/// The team's players, in order of first appearance in the log: whether that
/// first appearance is a substitution onto court or a credited event.
fn team_players_in_order(log: &[LogEntry], attributions: &Vec<Option<String>>, team: Team) -> (r: Vec<String>)
    requires
        attributions@.len() == log@.len(),
        forall|i: int| 0 <= i < log@.len() ==> #[trigger] attributions@[i] == attribution_at(log@, i),
    ensures
        r@ == players_of(log@, team),
{
    let mut order: Vec<String> = Vec::new();
    let mut index: usize = 0;
    while index < log.len()
        invariant
            0 <= index <= log@.len(),
            attributions@.len() == log@.len(),
            forall|i: int| 0 <= i < log@.len() ==> #[trigger] attributions@[i] == attribution_at(log@, i),
            order@ == players_upto(log@, team, index as int),
        decreases log@.len() - index,
    {
        let candidate: Option<&String> = match &log[index] {
            LogEntry::Substitution(substitution) => if substitution.team == team {
                Some(&substitution.player)
            } else {
                None
            },
            LogEntry::Event(event) => if event.team == team {
                match &attributions[index] {
                    Some(player) => Some(player),
                    None => None,
                }
            } else {
                None
            },
            LogEntry::QuarterBreak(_) => None,
        };
        if let Some(player) = candidate {
            let ghost pred = reads(player@);
            proof {
                lemma_first_index(order@, pred);
            }
            let mut k: usize = 0;
            let mut seen = false;
            while k < order.len()
                invariant_except_break
                    !seen,
                invariant
                    0 <= k <= order@.len(),
                    pred == reads(player@),
                    forall|j: int| 0 <= j < k ==> !pred(#[trigger] order@[j]),
                ensures
                    seen ==> 0 <= k < order@.len() && pred(order@[k as int]),
                    !seen ==> k == order@.len(),
                decreases order@.len() - k,
            {
                if order[k] == *player {
                    seen = true;
                    break;
                }
                k = k + 1;
            }
            proof {
                if seen {
                    crate::roster::lemma_first_index_found(order@, pred, k as int);
                } else if first_index(order@, pred) >= 0 {
                    let f = first_index(order@, pred);
                    assert(!pred(order@[f]));
                }
            }
            if !seen {
                order.push(player.clone());
            }
        }
        index = index + 1;
    }
    order
}

/// The direct counts of one player, as machine integers.
#[derive(Clone, Copy)]
struct Tally {
    goals: u32,
    shots: u32,
    feeds: u32,
    completed_feeds: u32,
    attacking_rebounds: u32,
    defensive_rebounds: u32,
    unforced_turnovers: u32,
    infringements: u32,
    gains: u32,
    gain_interceptions: u32,
    gain_deflections: u32,
    gain_pick_ups: u32,
}

spec fn tally_view(t: Tally) -> Line {
    Line {
        goals: t.goals as nat,
        shots: t.shots as nat,
        feeds: t.feeds as nat,
        completed_feeds: t.completed_feeds as nat,
        attacking_rebounds: t.attacking_rebounds as nat,
        defensive_rebounds: t.defensive_rebounds as nat,
        unforced_turnovers: t.unforced_turnovers as nat,
        infringements: t.infringements as nat,
        gains: t.gains as nat,
        gain_interceptions: t.gain_interceptions as nat,
        gain_deflections: t.gain_deflections as nat,
        gain_pick_ups: t.gain_pick_ups as nat,
    }
}

fn zero_tally() -> (r: Tally)
    ensures
        tally_view(r) == zero_line(),
{
    Tally {
        goals: 0,
        shots: 0,
        feeds: 0,
        completed_feeds: 0,
        attacking_rebounds: 0,
        defensive_rebounds: 0,
        unforced_turnovers: 0,
        infringements: 0,
        gains: 0,
        gain_interceptions: 0,
        gain_deflections: 0,
        gain_pick_ups: 0,
    }
}

/// Credit one more event to a tally.
fn bump_tally(t: Tally, action: Action) -> (r: Tally)
    requires
        line_bounded(tally_view(t), u32::MAX - 1),
    ensures
        tally_view(r) == bump(tally_view(t), action),
{
    let mut t = t;
    match action {
        Action::Goal { failed, .. } => {
            t.shots = t.shots + 1;
            if !failed {
                t.goals = t.goals + 1;
            }
        },
        Action::Feed { failed, .. } => {
            t.feeds = t.feeds + 1;
            if !failed {
                t.completed_feeds = t.completed_feeds + 1;
            }
        },
        Action::Rebound { position } => match position {
            ReboundPosition::GS | ReboundPosition::GA => t.attacking_rebounds = t.attacking_rebounds + 1,
            _ => t.defensive_rebounds = t.defensive_rebounds + 1,
        },
        Action::UnforcedTurnover { .. } => t.unforced_turnovers = t.unforced_turnovers + 1,
        Action::Infringement { .. } => t.infringements = t.infringements + 1,
        Action::Gain { sub_type, .. } => {
            t.gains = t.gains + 1;
            match sub_type {
                Some(GainSubType::Interception) => t.gain_interceptions = t.gain_interceptions + 1,
                Some(GainSubType::Deflection) => t.gain_deflections = t.gain_deflections + 1,
                Some(GainSubType::PickUp) => t.gain_pick_ups = t.gain_pick_ups + 1,
                None => {},
            }
        },
        Action::CentrePassReceive { .. } => {},
    }
    t
}

/// The index of the player named `player` in `players`, if listed.
fn tally(players: &Vec<String>, player: &Option<String>) -> (r: Option<usize>)
    ensures
        match *player {
            Some(name) => {
                let k = first_index(players@, reads(name@));
                &&& k >= 0 ==> (r matches Some(i) && i as int == k)
                &&& k < 0 ==> r is None
            },
            None => r is None,
        },
{
    let name = match player {
        Some(name) => name,
        None => return None,
    };
    let ghost pred = reads(name@);
    proof {
        lemma_first_index(players@, pred);
        assert(*player == Some(*name));
    }
    let mut k: usize = 0;
    while k < players.len()
        invariant
            0 <= k <= players@.len(),
            pred == reads(name@),
            *player == Some(*name),
            forall|j: int| 0 <= j < k ==> !pred(#[trigger] players@[j]),
        decreases players@.len() - k,
    {
        if players[k] == *name {
            proof {
                crate::roster::lemma_first_index_found(players@, pred, k as int);
            }
            return Some(k);
        }
        k = k + 1;
    }
    proof {
        lemma_first_index(players@, pred);
        if first_index(players@, pred) >= 0 {
            let f = first_index(players@, pred);
            assert(!pred(players@[f]));
        }
    }
    None
}

/// Tally every one of `team`'s events to its attributed player: entry `k`
/// of the result holds the direct counts of `players[k]`.
fn count_direct(log: &[LogEntry], attributions: &Vec<Option<String>>, players: &Vec<String>, team: Team) -> (r: Vec<Tally>)
    requires
        log@.len() <= u32::MAX,
        attributions@.len() == log@.len(),
        forall|i: int| 0 <= i < log@.len() ==> #[trigger] attributions@[i] == attribution_at(log@, i),
        players@ == players_of(log@, team),
    ensures
        r@.len() == players@.len(),
        forall|k: int| 0 <= k < players@.len() ==> tally_view(#[trigger] r@[k]) == line_upto(log@, team, players@[k]@, log@.len() as int),
{
    proof {
        lemma_players_upto(log@, team, log@.len() as int);
    }
    let mut tallies: Vec<Tally> = Vec::new();
    let mut k: usize = 0;
    while k < players.len()
        invariant
            0 <= k <= players@.len(),
            tallies@.len() == k,
            forall|j: int| 0 <= j < k ==> tally_view(#[trigger] tallies@[j]) == zero_line(),
        decreases players@.len() - k,
    {
        tallies.push(zero_tally());
        k = k + 1;
    }
    let mut index: usize = 0;
    while index < log.len()
        invariant
            0 <= index <= log@.len(),
            log@.len() <= u32::MAX,
            attributions@.len() == log@.len(),
            forall|i: int| 0 <= i < log@.len() ==> #[trigger] attributions@[i] == attribution_at(log@, i),
            players@ == players_of(log@, team),
            distinct_strings(players@),
            tallies@.len() == players@.len(),
            forall|j: int| 0 <= j < players@.len() ==> tally_view(#[trigger] tallies@[j]) == line_upto(log@, team, players@[j]@, index as int),
        decreases log@.len() - index,
    {
        if let LogEntry::Event(event) = &log[index] {
            if event.team == team {
                let attribution = &attributions[index];
                assert(*attribution == attribution_at(log@, index as int));
                match tally(players, attribution) {
                    Some(k) => {
                        proof {
                            let name = attribution_at(log@, index as int)->Some_0;
                            lemma_first_index(players@, reads(name@));
                            lemma_line_bounded(log@, team, players@[k as int]@, index as int);
                        }
                        let updated = bump_tally(tallies[k], event.action);
                        tallies.set(k, updated);
                        proof {
                            let name = attribution_at(log@, index as int)->Some_0;
                            lemma_first_index(players@, reads(name@));
                            assert(reads(name@)(players@[k as int]));
                            assert(credited_to(log@, team, players@[k as int]@, index as int));
                            assert forall|j: int| 0 <= j < players@.len() implies tally_view(#[trigger] tallies@[j]) == line_upto(log@, team, players@[j]@, index + 1) by {
                                if j != k {
                                    assert(players@[j]@ != players@[k as int]@);
                                }
                            }
                        }
                    },
                    None => {
                        proof {
                            if attribution_at(log@, index as int) is Some {
                                lemma_credited_player_listed(log@, team, index as int);
                            }
                        }
                    },
                }
            }
        }
        index = index + 1;
    }
    tallies
}

// ---------------------------------------------------------------------------
// Possession-derived figures
// ---------------------------------------------------------------------------

/// Walk one possession's events: the most recent feed is pending until a shot
/// (which credits it, made or missed) or a rebound (which clears it).
/// Returns the pending feed and the credits so far: each is the log index of
/// a feed followed by a shot, and whether that shot scored.
pub open spec fn feed_credits(log: Seq<LogEntry>, events: Seq<int>) -> (Option<int>, Seq<(int, bool)>)
    decreases events.len(),
{
    if events.len() == 0 {
        (None, seq![])
    } else {
        let (last_feed, credits) = feed_credits(log, events.drop_last());
        let index = events.last();
        match log[index] {
            LogEntry::Event(event) => match event.action {
                Action::Feed { .. } => (Some(index), credits),
                Action::Goal { failed, .. } => match last_feed {
                    Some(feed) => (None, credits.push((feed, !failed))),
                    None => (None, credits),
                },
                Action::Rebound { .. } => (None, credits),
                _ => (last_feed, credits),
            },
            _ => (last_feed, credits),
        }
    }
}

/// The feed credits of all of `team`'s possessions, in match order.
pub open spec fn team_credits(log: Seq<LogEntry>, possessions: Seq<(Team, Seq<int>)>, team: Team) -> Seq<(int, bool)>
    decreases possessions.len(),
{
    if possessions.len() == 0 {
        seq![]
    } else {
        let before = team_credits(log, possessions.drop_last(), team);
        let p = possessions.last();
        if p.0 == team {
            before + feed_credits(log, p.1).1
        } else {
            before
        }
    }
}

/// How many of the credits go to the feeder named `name`: as feeds with
/// shot, and as goal assists.
pub open spec fn credits_for(log: Seq<LogEntry>, credits: Seq<(int, bool)>, name: Seq<char>) -> (nat, nat)
    decreases credits.len(),
{
    if credits.len() == 0 {
        (0, 0)
    } else {
        let (with_shot, assists) = credits_for(log, credits.drop_last(), name);
        let (feed, made) = credits.last();
        if attribution_at(log, feed) matches Some(player) && player@ == name {
            (with_shot + 1, if made { assists + 1 } else { assists })
        } else {
            (with_shot, assists)
        }
    }
}

/// Whether a log entry is a successful shot.
pub open spec fn is_goal_entry(entry: LogEntry) -> bool {
    entry matches LogEntry::Event(event) && event.action.is_goal()
}

/// Whether a possession ended in a goal: one of its events is a successful
/// shot.
pub open spec fn converted(log: Seq<LogEntry>, events: Seq<int>) -> bool {
    exists|k: int| 0 <= k < events.len() && is_goal_entry(#[trigger] log[events[k]])
}

/// A team's conversion counts: possessions begun by a centre pass receive,
/// and by a gain, and how many of each ended in a goal.
pub ghost struct ConversionCounts {
    pub centre_pass_total: nat,
    pub centre_pass_goals: nat,
    pub gain_total: nat,
    pub gain_goals: nat,
}

/// The conversion counts of `team` over a list of possessions, each
/// classified by the action that began it.
pub open spec fn conversions_upto(log: Seq<LogEntry>, possessions: Seq<(Team, Seq<int>)>, team: Team) -> ConversionCounts
    decreases possessions.len(),
{
    if possessions.len() == 0 {
        ConversionCounts { centre_pass_total: 0, centre_pass_goals: 0, gain_total: 0, gain_goals: 0 }
    } else {
        let before = conversions_upto(log, possessions.drop_last(), team);
        let p = possessions.last();
        let scored: nat = if converted(log, p.1) { 1 } else { 0 };
        if p.0 != team {
            before
        } else {
            match log[p.1[0]] {
                LogEntry::Event(event) => match event.action {
                    Action::CentrePassReceive { .. } => ConversionCounts {
                        centre_pass_total: before.centre_pass_total + 1,
                        centre_pass_goals: before.centre_pass_goals + scored,
                        ..before
                    },
                    Action::Gain { .. } => ConversionCounts {
                        gain_total: before.gain_total + 1,
                        gain_goals: before.gain_goals + scored,
                        ..before
                    },
                    _ => before,
                },
                _ => before,
            }
        }
    }
}

proof fn lemma_feed_credits_bounded(log: Seq<LogEntry>, events: Seq<int>)
    ensures
        feed_credits(log, events).1.len() <= events.len(),
    decreases events.len(),
{
    if events.len() > 0 {
        lemma_feed_credits_bounded(log, events.drop_last());
    }
}

proof fn lemma_team_credits_bounded(log: Seq<LogEntry>, possessions: Seq<(Team, Seq<int>)>, team: Team)
    ensures
        team_credits(log, possessions, team).len() <= total_len(possessions),
    decreases possessions.len(),
{
    if possessions.len() > 0 {
        lemma_team_credits_bounded(log, possessions.drop_last(), team);
        lemma_feed_credits_bounded(log, possessions.last().1);
    }
}

proof fn lemma_credits_for_bounded(log: Seq<LogEntry>, credits: Seq<(int, bool)>, name: Seq<char>)
    ensures
        credits_for(log, credits, name).1 <= credits_for(log, credits, name).0 <= credits.len(),
    decreases credits.len(),
{
    if credits.len() > 0 {
        lemma_credits_for_bounded(log, credits.drop_last(), name);
    }
}

proof fn lemma_conversions_bounded(log: Seq<LogEntry>, possessions: Seq<(Team, Seq<int>)>, team: Team)
    ensures
        conversions_upto(log, possessions, team).centre_pass_goals <= conversions_upto(log, possessions, team).centre_pass_total,
        conversions_upto(log, possessions, team).gain_goals <= conversions_upto(log, possessions, team).gain_total,
        conversions_upto(log, possessions, team).centre_pass_total + conversions_upto(log, possessions, team).gain_total <= possessions.len(),
    decreases possessions.len(),
{
    if possessions.len() > 0 {
        lemma_conversions_bounded(log, possessions.drop_last(), team);
    }
}

proof fn lemma_total_len_take(possessions: Seq<(Team, Seq<int>)>, q: int)
    requires
        0 <= q <= possessions.len(),
    ensures
        total_len(possessions.take(q)) <= total_len(possessions),
        q < possessions.len() ==> total_len(possessions.take(q + 1)) == total_len(possessions.take(q)) + possessions[q].1.len(),
    decreases possessions.len(),
{
    if q < possessions.len() {
        assert(possessions.take(q + 1).drop_last() == possessions.take(q));
        assert(possessions.take(q + 1).last() == possessions[q]);
        if q + 1 < possessions.len() {
            assert(possessions.drop_last().take(q + 1) == possessions.take(q + 1));
            lemma_total_len_take(possessions.drop_last(), q + 1);
        } else {
            assert(possessions.take(q + 1) == possessions);
        }
        assert(possessions.drop_last().take(q) == possessions.take(q));
        lemma_total_len_take(possessions.drop_last(), q);
    } else {
        assert(possessions.take(q) == possessions);
    }
}

proof fn lemma_len_bounded_by_total(possessions: Seq<(Team, Seq<int>)>)
    requires
        forall|k: int| 0 <= k < possessions.len() ==> (#[trigger] possessions[k]).1.len() > 0,
    ensures
        possessions.len() <= total_len(possessions),
    decreases possessions.len(),
{
    if possessions.len() > 0 {
        let d = possessions.drop_last();
        assert forall|k: int| 0 <= k < d.len() implies (#[trigger] d[k]).1.len() > 0 by {
            assert(d[k] == possessions[k]);
        }
        lemma_len_bounded_by_total(d);
    }
}

/// The [`Event`] at `index`, which callers only ever hand indices they
/// collected from event entries.
fn event_at(log: &[LogEntry], index: usize) -> (r: &Event)
    requires
        index < log@.len(),
        log@[index as int] is Event,
    ensures
        log@[index as int] == LogEntry::Event(*r),
{
    match &log[index] {
        LogEntry::Event(event) => event,
        _ => vstd::pervasive::unreached(),
    }
}

/// Credit feeds with shot and goal assists, and classify possessions for the
/// conversion rates, over `team`'s possessions. Entry `k` of the first
/// result holds `players[k]`'s feeds with shot and goal assists.
fn possession_figures(
    log: &[LogEntry],
    attributions: &Vec<Option<String>>,
    players: &Vec<String>,
    possessions: &Vec<Possession>,
    team: Team,
) -> (r: (Vec<(u32, u32)>, Conversions))
    requires
        log@.len() <= u32::MAX,
        attributions@.len() == log@.len(),
        forall|i: int| 0 <= i < log@.len() ==> #[trigger] attributions@[i] == attribution_at(log@, i),
        players@ == players_of(log@, team),
        possessions_view(possessions@) == possessions_of(log@),
    ensures
        r.0@.len() == players@.len(),
        forall|k: int|
            0 <= k < players@.len() ==> {
                let (with_shot, assists) = credits_for(log@, team_credits(log@, possessions_of(log@), team), players@[k]@);
                &&& (#[trigger] r.0@[k]).0 == with_shot
                &&& r.0@[k].1 == assists
            },
        ({
            let counts = conversions_upto(log@, possessions_of(log@), team);
            &&& r.1.centre_pass_total == counts.centre_pass_total
            &&& r.1.centre_pass_goals == counts.centre_pass_goals
            &&& r.1.gain_total == counts.gain_total
            &&& r.1.gain_goals == counts.gain_goals
        }),
{
    let ghost ps = possessions_of(log@);
    proof {
        lemma_possessions_shape(log@);
        lemma_players_upto(log@, team, log@.len() as int);
        crate::score::lemma_events_of_bounded(log@);
        lemma_len_bounded_by_total(ps);
    }
    let mut figures: Vec<(u32, u32)> = Vec::new();
    let mut k: usize = 0;
    while k < players.len()
        invariant
            0 <= k <= players@.len(),
            figures@.len() == k,
            forall|j: int| 0 <= j < k ==> #[trigger] figures@[j] == (0u32, 0u32),
        decreases players@.len() - k,
    {
        figures.push((0, 0));
        k = k + 1;
    }
    let mut conversions = Conversions::default();
    let mut q: usize = 0;
    while q < possessions.len()
        invariant
            0 <= q <= possessions@.len(),
            log@.len() <= u32::MAX,
            attributions@.len() == log@.len(),
            forall|i: int| 0 <= i < log@.len() ==> #[trigger] attributions@[i] == attribution_at(log@, i),
            players@ == players_of(log@, team),
            distinct_strings(players@),
            possessions_view(possessions@) == ps,
            ps == possessions_of(log@),
            forall|j: int| 0 <= j < ps.len() ==> well_formed_possession(log@, #[trigger] ps[j]),
            total_len(ps) <= log@.len(),
            ps.len() <= total_len(ps),
            figures@.len() == players@.len(),
            forall|j: int|
                0 <= j < players@.len() ==> {
                    let (with_shot, assists) = credits_for(log@, team_credits(log@, ps.take(q as int), team), players@[j]@);
                    &&& (#[trigger] figures@[j]).0 == with_shot
                    &&& figures@[j].1 == assists
                },
            ({
                let counts = conversions_upto(log@, ps.take(q as int), team);
                &&& conversions.centre_pass_total == counts.centre_pass_total
                &&& conversions.centre_pass_goals == counts.centre_pass_goals
                &&& conversions.gain_total == counts.gain_total
                &&& conversions.gain_goals == counts.gain_goals
            }),
        decreases possessions@.len() - q,
    {
        let possession = &possessions[q];
        let ghost p = ps[q as int];
        let ghost before = team_credits(log@, ps.take(q as int), team);
        assert(ps.take(q + 1).drop_last() == ps.take(q as int));
        assert(ps.take(q + 1).last() == p);
        assert(p == possession_view(*possession));
        assert(well_formed_possession(log@, p));
        proof {
            lemma_total_len_take(ps, q as int);
            lemma_total_len_take(ps, q + 1);
            lemma_team_credits_bounded(log@, ps.take(q as int), team);
            lemma_conversions_bounded(log@, ps.take(q as int), team);
            assert(ps.take(q as int).len() == q);
        }
        if possession.team == team {
            let mut last_feed: Option<usize> = None;
            let mut scored = false;
            let mut m: usize = 0;
            while m < possession.events.len()
                invariant
                    0 <= m <= possession.events@.len(),
                    p == possession_view(*possession),
                    well_formed_possession(log@, p),
                    attributions@.len() == log@.len(),
                    forall|i: int| 0 <= i < log@.len() ==> #[trigger] attributions@[i] == attribution_at(log@, i),
                    distinct_strings(players@),
                    figures@.len() == players@.len(),
                    before.len() + p.1.len() <= u32::MAX,
                    ({
                        let (pending, credits) = feed_credits(log@, p.1.take(m as int));
                        &&& pending == match last_feed { Some(f) => Some(f as int), None => None::<int> }
                        &&& credits.len() <= m
                        &&& forall|j: int|
                            0 <= j < players@.len() ==> {
                                let (with_shot, assists) = credits_for(log@, before + credits, players@[j]@);
                                &&& (#[trigger] figures@[j]).0 == with_shot
                                &&& figures@[j].1 == assists
                            }
                    }),
                    scored == exists|k: int| 0 <= k < m && is_goal_entry(#[trigger] log@[p.1[k]]),
                    last_feed matches Some(f) ==> f < log@.len(),
                decreases possession.events@.len() - m,
            {
                let index = possession.events[m];
                assert(p.1[m as int] == index as int);
                let ghost (pending, credits) = feed_credits(log@, p.1.take(m as int));
                assert(p.1.take(m + 1).drop_last() == p.1.take(m as int));
                assert(p.1.take(m + 1).last() == index as int);
                let event = event_at(log, index);
                match event.action {
                    Action::Feed { .. } => {
                        last_feed = Some(index);
                    },
                    Action::Goal { failed, .. } => {
                        if let Some(feed_index) = last_feed {
                            last_feed = None;
                            assert(attributions@[feed_index as int] == attribution_at(log@, feed_index as int));
                            let credited = tally(players, &attributions[feed_index]);
                            let ghost updated = credits.push((feed_index as int, !failed));
                            assert(before + updated == (before + credits).push((feed_index as int, !failed)));
                            assert((before + updated).drop_last() == before + credits);
                            assert((before + updated).last() == (feed_index as int, !failed));
                            if let Some(slot) = credited {
                                proof {
                                    let name = attribution_at(log@, feed_index as int)->Some_0;
                                    lemma_first_index(players@, reads(name@));
                                    lemma_credits_for_bounded(log@, before + credits, players@[slot as int]@);
                                }
                                let (with_shot, assists) = figures[slot];
                                let bumped = (with_shot + 1, if !failed { assists + 1 } else { assists });
                                figures.set(slot, bumped);
                                proof {
                                    let name = attribution_at(log@, feed_index as int)->Some_0;
                                    assert(reads(name@)(players@[slot as int]));
                                    assert forall|j: int| 0 <= j < players@.len() implies {
                                        let (with_shot, assists) = credits_for(log@, before + updated, players@[j]@);
                                        &&& (#[trigger] figures@[j]).0 == with_shot
                                        &&& figures@[j].1 == assists
                                    } by {
                                        if j != slot {
                                            assert(players@[j]@ != players@[slot as int]@);
                                        }
                                    }
                                }
                            } else {
                                proof {
                                    if attribution_at(log@, feed_index as int) is Some {
                                        let name = attribution_at(log@, feed_index as int)->Some_0;
                                        lemma_first_index(players@, reads(name@));
                                        assert forall|j: int| 0 <= j < players@.len() implies players@[j]@ != name@ by {
                                            assert(!reads(name@)(players@[j]));
                                        }
                                    }
                                }
                            }
                        }
                        if !failed {
                            scored = true;
                        }
                    },
                    Action::Rebound { .. } => {
                        last_feed = None;
                    },
                    _ => {},
                }
                proof {
                    assert forall|k: int| 0 <= k < m + 1 && is_goal_entry(#[trigger] log@[p.1[k]]) implies scored by {
                        if k == m {
                            assert(log@[p.1[k]] == LogEntry::Event(*event));
                        }
                    }
                    if scored {
                        if !(exists|k: int| 0 <= k < m && is_goal_entry(#[trigger] log@[p.1[k]])) {
                            assert(log@[p.1[m as int]] == LogEntry::Event(*event));
                        }
                    }
                }
                m = m + 1;
            }
            assert(p.1.take(p.1.len() as int) == p.1);
            assert(team_credits(log@, ps.take(q + 1), team) == before + feed_credits(log@, p.1).1);
            // Conversion rates: classify the possession by how it started
            // and whether it ended in a goal.
            assert(p.1[0] == possession.events@[0] as int);
            let first = event_at(log, possession.events[0]);
            assert(scored == converted(log@, p.1));
            match first.action {
                Action::CentrePassReceive { .. } => {
                    conversions.centre_pass_total = conversions.centre_pass_total + 1;
                    if scored {
                        conversions.centre_pass_goals = conversions.centre_pass_goals + 1;
                    }
                },
                Action::Gain { .. } => {
                    conversions.gain_total = conversions.gain_total + 1;
                    if scored {
                        conversions.gain_goals = conversions.gain_goals + 1;
                    }
                },
                _ => {},
            }
        } else {
            assert(team_credits(log@, ps.take(q + 1), team) == before);
        }
        q = q + 1;
    }
    assert(ps.take(possessions@.len() as int) == ps);
    (figures, conversions)
}

// ---------------------------------------------------------------------------
// The report
// ---------------------------------------------------------------------------

/// The mathematical content of one player's statistics.
pub ghost struct PlayerView {
    pub player: String,
    pub line: Line,
    pub feeds_with_shot: nat,
    pub goal_assists: nat,
    pub playing_time_ms: Option<int>,
}

/// The mathematical content of a [`PlayerStats`].
pub open spec fn player_view(stats: PlayerStats) -> PlayerView {
    PlayerView {
        player: stats.player,
        line: Line {
            goals: stats.goals as nat,
            shots: stats.shots as nat,
            feeds: stats.feeds as nat,
            completed_feeds: stats.completed_feeds as nat,
            attacking_rebounds: stats.attacking_rebounds as nat,
            defensive_rebounds: stats.defensive_rebounds as nat,
            unforced_turnovers: stats.unforced_turnovers as nat,
            infringements: stats.infringements as nat,
            gains: stats.gains as nat,
            gain_interceptions: stats.gain_interceptions as nat,
            gain_deflections: stats.gain_deflections as nat,
            gain_pick_ups: stats.gain_pick_ups as nat,
        },
        feeds_with_shot: stats.feeds_with_shot as nat,
        goal_assists: stats.goal_assists as nat,
        playing_time_ms: match stats.playing_time_ms {
            Some(ms) => Some(ms as int),
            None => None,
        },
    }
}

/// Whether a playing-time total is the one of the player named `name`.
pub open spec fn total_named(name: Seq<char>) -> spec_fn((String, int)) -> bool {
    |t: (String, int)| t.0@ == name
}

/// A player's time on court per the team's playing time, or `None` when it
/// is unavailable or lists no stint for them.
pub open spec fn playing_time_for(log: Seq<LogEntry>, team: Team, name: Seq<char>) -> Option<int> {
    match playing_time_of(log, team) {
        None => None,
        Some(totals) => {
            let k = first_index(totals, total_named(name));
            if k >= 0 {
                Some(totals[k].1)
            } else {
                None
            }
        },
    }
}

/// What a player's statistics line is, derived from the whole log.
pub open spec fn expected_player(log: Seq<LogEntry>, team: Team, player: String) -> PlayerView {
    let (with_shot, assists) = credits_for(log, team_credits(log, possessions_of(log), team), player@);
    PlayerView {
        player,
        line: line_upto(log, team, player@, log.len() as int),
        feeds_with_shot: with_shot,
        goal_assists: assists,
        playing_time_ms: playing_time_for(log, team, player@),
    }
}

/// The mathematical content of a [`Conversions`].
pub open spec fn conversions_view(c: Conversions) -> ConversionCounts {
    ConversionCounts {
        centre_pass_total: c.centre_pass_total as nat,
        centre_pass_goals: c.centre_pass_goals as nat,
        gain_total: c.gain_total as nat,
        gain_goals: c.gain_goals as nat,
    }
}

/// Whether `stats` is exactly `team`'s derived statistics for the log.
pub open spec fn is_team_stats(log: Seq<LogEntry>, team: Team, stats: TeamStats) -> bool {
    let players = players_of(log, team);
    &&& stats.team == team
    &&& stats.players@.len() == players.len()
    &&& forall|k: int| 0 <= k < players.len() ==> player_view(#[trigger] stats.players@[k]) == expected_player(log, team, players[k])
    &&& conversions_view(stats.conversions) == conversions_upto(log, possessions_of(log), team)
    &&& stats.playing_time_available == (playing_time_of(log, team) is Some)
}

/// Everyone a team's players list holds came on court by one of the team's
/// substitutions: a credited event's player is the occupant of a position,
/// and only substitutions fill positions.
proof fn lemma_players_substituted(log: Seq<LogEntry>, team: Team, n: int)
    requires
        0 <= n <= log.len(),
    ensures
        forall|k: int|
            0 <= k < players_upto(log, team, n).len() ==> crate::roster::substituted_on(
                log,
                team,
                (#[trigger] players_upto(log, team, n)[k])@,
            ),
    decreases n,
{
    if n > 0 {
        lemma_players_substituted(log, team, n - 1);
        let before = players_upto(log, team, n - 1);
        match log[n - 1] {
            LogEntry::Substitution(s) => {
                if s.team == team {
                    crate::roster::lemma_substitution_is_listed(log, team, n - 1);
                }
            },
            LogEntry::Event(e) => {
                if e.team == team {
                    if let Some(player) = attribution_at(log, n - 1) {
                        let position = crate::event::CourtPosition::narrow(e.action.position())->0;
                        crate::roster::lemma_occupant_substituted(log.subrange(0, n - 1), team, position);
                        assert(log.take(n - 1) == log.subrange(0, n - 1));
                        crate::roster::lemma_substituted_on_prefix(log, team, n - 1, player@);
                    }
                }
            },
            LogEntry::QuarterBreak(_) => {},
        }
    }
}

proof fn lemma_listed_has_playing_time(log: Seq<LogEntry>, team: Team, name: Seq<char>)
    requires
        playing_time_of(log, team) is Some,
        crate::roster::listed(playing_time_of(log, team)->0, name),
    ensures
        playing_time_for(log, team, name) is Some,
{
    let totals = playing_time_of(log, team)->0;
    lemma_first_index(totals, total_named(name));
    let j = choose|j: int| 0 <= j < totals.len() && (#[trigger] totals[j]).0@ == name;
    assert(total_named(name)(totals[j]));
}

/// Playing Time is all or nothing for a team: when it is available, every
/// player the team's report lists has a time on court (none is left without
/// one), and when it is not, no player has one.
pub proof fn lemma_available_playing_time_covers_every_player(log: Seq<LogEntry>, team: Team)
    ensures
        forall|k: int|
            0 <= k < players_of(log, team).len() ==> ((#[trigger] expected_player(
                log,
                team,
                players_of(log, team)[k],
            )).playing_time_ms is Some <==> playing_time_of(log, team) is Some),
{
    lemma_players_substituted(log, team, log.len() as int);
    assert forall|k: int| 0 <= k < players_of(log, team).len() && playing_time_of(log, team) is Some implies (
    #[trigger] expected_player(log, team, players_of(log, team)[k])).playing_time_ms is Some by {
        crate::roster::lemma_substituted_players_have_totals(log, team, players_of(log, team)[k]@);
        lemma_listed_has_playing_time(log, team, players_of(log, team)[k]@);
    }
}

/// Whether the machine arithmetic of a report on `log` stays in range: every
/// count is at most the log's length (which must fit a `u32`) and both
/// teams' playing time fits its `i64` arithmetic.
pub open spec fn report_fits(log: Seq<LogEntry>) -> bool {
    &&& log.len() <= u32::MAX
    &&& playing_time_fits(log, Team::A)
    &&& playing_time_fits(log, Team::B)
}

fn build_team_stats(
    log: &[LogEntry],
    attributions: &Vec<Option<String>>,
    possessions: &Vec<Possession>,
    team: Team,
) -> (r: TeamStats)
    requires
        log@.len() <= u32::MAX,
        playing_time_fits(log@, team),
        attributions@.len() == log@.len(),
        forall|i: int| 0 <= i < log@.len() ==> #[trigger] attributions@[i] == attribution_at(log@, i),
        possessions_view(possessions@) == possessions_of(log@),
    ensures
        is_team_stats(log@, team, r),
{
    let names = team_players_in_order(log, attributions, team);
    proof {
        lemma_players_upto(log@, team, log@.len() as int);
    }

    // Direct per-event counts, credited to the event's attributed player.
    let tallies = count_direct(log, attributions, &names, team);

    // Possession-derived feed descriptors and conversion rates.
    let (figures, conversions) = possession_figures(log, attributions, &names, possessions, team);

    // Playing Time: each player's time on court, or none at all when the log
    // lacks the timestamps to derive it.
    let playing_time = derive_playing_time(log, team);
    let playing_time_available = playing_time.is_some();
    let mut minutes: Vec<Option<i64>> = Vec::new();
    let mut k: usize = 0;
    while k < names.len()
        invariant
            0 <= k <= names@.len(),
            minutes@.len() == k,
            forall|j: int| 0 <= j < k ==> #[trigger] minutes@[j] == None::<i64>,
        decreases names@.len() - k,
    {
        minutes.push(None);
        k = k + 1;
    }
    if let Some(times) = playing_time {
        let ghost totals = totals_view(times@);
        proof {
            crate::roster::lemma_playing_time_lists_each_player_once(log@, team);
        }
        let mut j: usize = 0;
        while j < times.len()
            invariant
                0 <= j <= times@.len(),
                totals == totals_view(times@),
                crate::roster::distinct_names(totals),
                distinct_strings(names@),
                minutes@.len() == names@.len(),
                forall|n: int|
                    0 <= n < names@.len() ==> {
                        let f = first_index(totals.take(j as int), total_named(names@[n]@));
                        &&& f >= 0 ==> #[trigger] minutes@[n] == Some(totals[f].1 as i64)
                        &&& f < 0 ==> minutes@[n] == None::<i64>
                    },
            decreases times@.len() - j,
        {
            assert(totals[j as int] == (times@[j as int].player, times@[j as int].milliseconds as int));
            let found = tally(&names, &Some(times[j].player.clone()));
            let ms = times[j].milliseconds;
            proof {
                lemma_first_index(names@, reads(times@[j as int].player@));
            }
            proof {
                assert(totals.take(j + 1).drop_last() == totals.take(j as int));
                assert(totals.take(j + 1).last() == totals[j as int]);
            }
            match found {
                Some(slot) => {
                    minutes.set(slot, Some(ms));
                },
                None => {},
            }
            proof {
                let name = times@[j as int].player;
                lemma_first_index(names@, reads(name@));
                assert forall|n: int| 0 <= n < names@.len() implies {
                    let f = first_index(totals.take(j + 1), total_named(names@[n]@));
                    &&& f >= 0 ==> #[trigger] minutes@[n] == Some(totals[f].1 as i64)
                    &&& f < 0 ==> minutes@[n] == None::<i64>
                } by {
                    let pred = total_named(names@[n]@);
                    lemma_first_index(totals.take(j as int), pred);
                    lemma_first_index(totals.take(j + 1), pred);
                    if pred(totals[j as int]) {
                        // No earlier total reads the same name.
                        if first_index(totals.take(j as int), pred) >= 0 {
                            let e = first_index(totals.take(j as int), pred);
                            assert(totals.take(j as int)[e] == totals[e]);
                        }
                        assert(reads(name@)(names@[n]));
                        lemma_first_index(names@, reads(name@));
                        let g = first_index(names@, reads(name@));
                        if g != n {
                            assert(names@[g]@ != names@[n]@);
                        }
                    } else if found is Some {
                        let slot = found->Some_0;
                        assert(names@[slot as int]@ == name@);
                        assert(n != slot);
                    }
                }
            }
            j = j + 1;
        }
        assert(totals.take(times@.len() as int) == totals);
        assert forall|n: int| 0 <= n < names@.len() implies (match #[trigger] minutes@[n] {
            Some(ms) => Some(ms as int),
            None => None::<int>,
        }) == playing_time_for(log@, team, names@[n]@) by {
            let pred = total_named(names@[n]@);
            lemma_first_index(totals, pred);
            let f = first_index(totals, pred);
            if f >= 0 {
                assert(totals[f] == (times@[f].player, times@[f].milliseconds as int));
            }
        }
    }

    let mut players: Vec<PlayerStats> = Vec::new();
    let mut k: usize = 0;
    while k < names.len()
        invariant
            0 <= k <= names@.len(),
            names@ == players_of(log@, team),
            tallies@.len() == names@.len(),
            figures@.len() == names@.len(),
            minutes@.len() == names@.len(),
            forall|n: int| 0 <= n < names@.len() ==> tally_view(#[trigger] tallies@[n]) == line_upto(log@, team, names@[n]@, log@.len() as int),
            forall|n: int|
                0 <= n < names@.len() ==> {
                    let (with_shot, assists) = credits_for(log@, team_credits(log@, possessions_of(log@), team), names@[n]@);
                    &&& (#[trigger] figures@[n]).0 == with_shot
                    &&& figures@[n].1 == assists
                },
            forall|n: int| 0 <= n < names@.len() ==> (match #[trigger] minutes@[n] {
                Some(ms) => Some(ms as int),
                None => None::<int>,
            }) == playing_time_for(log@, team, names@[n]@),
            players@.len() == k,
            forall|n: int| 0 <= n < k ==> player_view(#[trigger] players@[n]) == expected_player(log@, team, names@[n]),
        decreases names@.len() - k,
    {
        let t = tallies[k];
        let (feeds_with_shot, goal_assists) = figures[k];
        let stats = PlayerStats {
            player: names[k].clone(),
            goals: t.goals,
            shots: t.shots,
            feeds: t.feeds,
            completed_feeds: t.completed_feeds,
            feeds_with_shot,
            goal_assists,
            attacking_rebounds: t.attacking_rebounds,
            defensive_rebounds: t.defensive_rebounds,
            unforced_turnovers: t.unforced_turnovers,
            infringements: t.infringements,
            gains: t.gains,
            gain_interceptions: t.gain_interceptions,
            gain_deflections: t.gain_deflections,
            gain_pick_ups: t.gain_pick_ups,
            playing_time_ms: minutes[k],
        };
        assert(player_view(stats) == expected_player(log@, team, names@[k as int]));
        players.push(stats);
        k = k + 1;
    }
    TeamStats { team, players, conversions, playing_time_available }
}

/// Derive the full statistics report from a match log in one pass over the
/// coded truth.
pub fn derive_stats(log: &[LogEntry]) -> (r: StatsReport)
    requires
        report_fits(log@),
    ensures
        r.score.team_a == goal_count(events_of(log@), Team::A),
        r.score.team_b == goal_count(events_of(log@), Team::B),
        r.quarter_scores@.len() == quarter_scores_of(log@).len(),
        forall|q: int|
            0 <= q < r.quarter_scores@.len() ==> (#[trigger] r.quarter_scores@[q]).team_a == quarter_scores_of(log@)[q].0
                && r.quarter_scores@[q].team_b == quarter_scores_of(log@)[q].1,
        r.teams@.len() == 2,
        is_team_stats(log@, Team::A, r.teams@[0]),
        is_team_stats(log@, Team::B, r.teams@[1]),
{
    let attributions = derive_attributions(log);
    let possessions = segment_possessions(log);
    let mut teams: Vec<TeamStats> = Vec::new();
    teams.push(build_team_stats(log, &attributions, &possessions, Team::A));
    teams.push(build_team_stats(log, &attributions, &possessions, Team::B));
    let events = log_events(log);
    proof {
        crate::score::lemma_events_of_bounded(log@);
    }
    StatsReport { score: derive_score(events.as_slice()), quarter_scores: derive_quarter_scores(log), teams }
}

// ---------------------------------------------------------------------------
// Laws of the report
// ---------------------------------------------------------------------------

/// The figures of a line that are refinements of another never exceed it:
/// goals are shots, completed feeds are feeds, and each gain sub-type is a
/// gain (a bare gain is in the total but no sub-type).
pub open spec fn line_consistent(line: Line) -> bool {
    &&& line.goals <= line.shots
    &&& line.completed_feeds <= line.feeds
    &&& line.gain_interceptions + line.gain_deflections + line.gain_pick_ups <= line.gains
}

/// How many of the first `n` log entries are Rebound events of `team`,
/// credited to the player named `name`, taken at one of `positions`.
pub open spec fn credited_rebounds(
    log: Seq<LogEntry>,
    team: Team,
    name: Seq<char>,
    n: int,
    positions: Set<ReboundPosition>,
) -> nat
    decreases n,
{
    if n <= 0 {
        0
    } else {
        credited_rebounds(log, team, name, n - 1, positions) + if credited_to(log, team, name, n - 1) && (
        log[n - 1] matches LogEntry::Event(event) && event.action matches Action::Rebound { position }
            && positions.contains(position)) {
            1nat
        } else {
            0nat
        }
    }
}

/// Rebounds are attacking or defensive by the position that took them: a
/// player's attacking rebounds are exactly the team's Rebound events credited
/// to them that were taken at GS or GA, and their defensive rebounds exactly
/// those taken at GD or GK.
pub proof fn lemma_rebounds_by_position(log: Seq<LogEntry>, team: Team, name: Seq<char>, n: int)
    ensures
        line_upto(log, team, name, n).attacking_rebounds == credited_rebounds(
            log,
            team,
            name,
            n,
            set![ReboundPosition::GS, ReboundPosition::GA],
        ),
        line_upto(log, team, name, n).defensive_rebounds == credited_rebounds(
            log,
            team,
            name,
            n,
            set![ReboundPosition::GD, ReboundPosition::GK],
        ),
    decreases n,
{
    if n > 0 {
        lemma_rebounds_by_position(log, team, name, n - 1);
        let attacking = set![ReboundPosition::GS, ReboundPosition::GA];
        let defensive = set![ReboundPosition::GD, ReboundPosition::GK];
        if let LogEntry::Event(event) = log[n - 1] {
            if let Action::Rebound { position } = event.action {
                assert(attacking.contains(position) <==> (position == ReboundPosition::GS || position
                    == ReboundPosition::GA));
                assert(defensive.contains(position) <==> (position == ReboundPosition::GD || position
                    == ReboundPosition::GK));
            }
        }
    }
}

/// A made goal, an unforced turnover and an infringement each end the
/// possession they fall in: no possession holds one of them anywhere but at
/// its last event. And one possession gives way to the next only because its
/// last event was one of those, a quarter break intervened, or the next event
/// is the other team's.
pub proof fn lemma_possessions_end_at_goals_turnovers_and_infringements(log: Seq<LogEntry>)
    ensures
        forall|k: int, a: int|
            0 <= k < possessions_of(log).len() && 0 <= a < possessions_of(log)[k].1.len() - 1 ==> !(
            log[#[trigger] possessions_of(log)[k].1[a]] matches LogEntry::Event(event) && (
            event.action matches Action::Goal { failed, .. } && !failed || event.action is UnforcedTurnover
                || event.action is Infringement)),
        forall|k: int|
            0 <= k < possessions_of(log).len() - 1 ==> ({
                let last = (#[trigger] possessions_of(log)[k]).1.last();
                ||| (log[last] matches LogEntry::Event(event) && (event.action matches Action::Goal {
                    failed,
                    ..
                } && !failed || event.action is UnforcedTurnover || event.action is Infringement))
                ||| break_between(log, last, possessions_of(log)[k + 1].1[0])
                ||| possessions_of(log)[k].0 != possessions_of(log)[k + 1].0
            }),
{
    lemma_possession_boundaries(log);
    let ps = possessions_of(log);
    assert forall|k: int, a: int| 0 <= k < ps.len() && 0 <= a < ps[k].1.len() - 1 implies !(
    log[#[trigger] ps[k].1[a]] matches LogEntry::Event(event) && (event.action matches Action::Goal {
        failed,
        ..
    } && !failed || event.action is UnforcedTurnover || event.action is Infringement)) by {
        assert(unbroken(log, ps[k]));
        assert(!ends_at(log, ps[k].1[a]));
    }
    assert forall|k: int| 0 <= k < ps.len() - 1 implies ({
        let last = (#[trigger] ps[k]).1.last();
        ||| (log[last] matches LogEntry::Event(event) && (event.action matches Action::Goal {
            failed,
            ..
        } && !failed || event.action is UnforcedTurnover || event.action is Infringement))
        ||| break_between(log, last, ps[k + 1].1[0])
        ||| ps[k].0 != ps[k + 1].0
    }) by {
        assert(boundary(log, ps[k], ps[k + 1]));
    }
}

proof fn lemma_line_consistent(log: Seq<LogEntry>, team: Team, name: Seq<char>, n: int)
    ensures
        line_consistent(line_upto(log, team, name, n)),
    decreases n,
{
    if n > 0 {
        lemma_line_consistent(log, team, name, n - 1);
    }
}

// ---------------------------------------------------------------------------
// Feeds with shot are feeds
// ---------------------------------------------------------------------------

/// Whether the indices strictly increase.
spec fn increasing(s: Seq<int>) -> bool {
    forall|i: int, j: int| 0 <= i < j < s.len() ==> s[i] < s[j]
}

/// Whether every index of `a` comes before every index of `b`.
spec fn precedes(a: Seq<int>, b: Seq<int>) -> bool {
    forall|i: int, j: int| 0 <= i < a.len() && 0 <= j < b.len() ==> a[i] < b[j]
}

/// Whether each possession's indices increase and every possession comes
/// wholly before the later ones.
spec fn ordered(ps: Seq<(Team, Seq<int>)>) -> bool {
    &&& forall|k: int| 0 <= k < ps.len() ==> increasing(#[trigger] ps[k].1)
    &&& forall|k1: int, k2: int| 0 <= k1 < k2 < ps.len() ==> precedes(#[trigger] ps[k1].1, #[trigger] ps[k2].1)
}

/// Whether a log entry is a Feed event.
spec fn is_feed_entry(entry: LogEntry) -> bool {
    entry matches LogEntry::Event(event) && event.action is Feed
}

/// Whether a log entry is a Feed event of `team`.
spec fn is_feed_of(entry: LogEntry, team: Team) -> bool {
    entry matches LogEntry::Event(event) && event.team == team && event.action is Feed
}

proof fn lemma_ordered_push(ps: Seq<(Team, Seq<int>)>, p: (Team, Seq<int>))
    requires
        ordered(ps),
        increasing(p.1),
        forall|k: int| 0 <= k < ps.len() ==> precedes(#[trigger] ps[k].1, p.1),
    ensures
        ordered(ps.push(p)),
{
    let after = ps.push(p);
    assert forall|k: int| 0 <= k < after.len() implies increasing(#[trigger] after[k].1) by {
        if k < ps.len() {
            assert(after[k] == ps[k]);
        }
    }
    assert forall|k1: int, k2: int| 0 <= k1 < k2 < after.len() implies precedes(#[trigger] after[k1].1, #[trigger] after[k2].1) by {
        assert(after[k1] == ps[k1]);
        if k2 < ps.len() {
            assert(after[k2] == ps[k2]);
        }
    }
}

/// Appending an index above all of a possession's keeps it increasing and
/// keeps every earlier possession before it.
proof fn lemma_extend_possession(done: Seq<(Team, Seq<int>)>, p: Seq<int>, index: int)
    requires
        increasing(p),
        forall|a: int| 0 <= a < p.len() ==> #[trigger] p[a] < index,
        forall|k: int, a: int| 0 <= k < done.len() && 0 <= a < done[k].1.len() ==> #[trigger] done[k].1[a] < index,
        forall|k: int| 0 <= k < done.len() ==> precedes(#[trigger] done[k].1, p),
    ensures
        increasing(p.push(index)),
        forall|k: int| 0 <= k < done.len() ==> precedes(#[trigger] done[k].1, p.push(index)),
{
    let q = p.push(index);
    assert forall|i: int, j: int| 0 <= i < j < q.len() implies q[i] < q[j] by {
        if j < p.len() {
            assert(q[i] == p[i] && q[j] == p[j]);
        } else {
            assert(q[i] == p[i]);
        }
    }
    assert forall|k: int| 0 <= k < done.len() implies precedes(#[trigger] done[k].1, q) by {
        assert forall|i: int, j: int| 0 <= i < done[k].1.len() && 0 <= j < q.len() implies done[k].1[i] < q[j] by {
            if j < p.len() {
                assert(q[j] == p[j]);
            }
        }
    }
}

/// Possessions come in log order: each one's indices increase, and each one
/// lies wholly before the next.
proof fn lemma_segment_ordered(log: Seq<LogEntry>)
    ensures
        ({
            let (done, current) = segment(log);
            &&& ordered(done)
            &&& current matches Some(p) ==> increasing(p.1) && forall|k: int|
                0 <= k < done.len() ==> precedes(#[trigger] done[k].1, p.1)
        }),
    decreases log.len(),
{
    if log.len() > 0 {
        let prefix = log.drop_last();
        lemma_segment_ordered(prefix);
        lemma_segment_shape(prefix);
        let (done, current) = segment(prefix);
        let index = log.len() - 1;
        assert forall|k: int, a: int| 0 <= k < done.len() && 0 <= a < done[k].1.len() implies #[trigger] done[k].1[a] < index by {
            assert(well_formed_possession(prefix, done[k]));
        }
        if let Some(p) = current {
            assert forall|a: int| 0 <= a < p.1.len() implies #[trigger] p.1[a] < index by {
                assert(well_formed_possession(prefix, p));
            }
            lemma_ordered_push(done, p);
        }
        if let LogEntry::Event(event) = log.last() {
            let empty = Seq::<int>::empty();
            match current {
                Some(p) => {
                    if p.0 == event.team {
                        lemma_extend_possession(done, p.1, index);
                    } else {
                        let done2 = done.push(p);
                        assert forall|k: int, a: int| 0 <= k < done2.len() && 0 <= a < done2[k].1.len() implies #[trigger] done2[k].1[a] < index by {
                            if k < done.len() {
                                assert(done2[k] == done[k]);
                            }
                        }
                        assert forall|k: int| 0 <= k < done2.len() implies precedes(#[trigger] done2[k].1, empty) by {}
                        lemma_extend_possession(done2, empty, index);
                    }
                },
                None => {
                    assert forall|k: int| 0 <= k < done.len() implies precedes(#[trigger] done[k].1, empty) by {}
                    lemma_extend_possession(done, empty, index);
                },
            }
            let (done2, open) = match current {
                Some(p) => if p.0 == event.team {
                    (done, p)
                } else {
                    (done.push(p), (event.team, seq![]))
                },
                None => (done, (event.team, seq![])),
            };
            assert(open.1 == empty || current == Some(open));
            let extended = (open.0, open.1.push(index));
            if ends_possession_spec(event.action) {
                lemma_ordered_push(done2, extended);
            }
        }
    }
}

proof fn lemma_possessions_ordered(log: Seq<LogEntry>)
    ensures
        ordered(possessions_of(log)),
{
    lemma_segment_ordered(log);
    let (done, current) = segment(log);
    if let Some(p) = current {
        lemma_ordered_push(done, p);
    }
}

/// Within one possession, each credited feed is one of its events and a
/// Feed, the credited feeds increase, and the pending feed comes after all
/// of them.
proof fn lemma_feed_credits_ordered(log: Seq<LogEntry>, events: Seq<int>)
    requires
        increasing(events),
        indices_within(events, log.len() as int),
    ensures
        ({
            let (pending, credits) = feed_credits(log, events);
            &&& forall|i: int| 0 <= i < credits.len() ==> events.contains(#[trigger] credits[i].0)
                && is_feed_entry(log[credits[i].0])
            &&& forall|i: int, j: int| 0 <= i < j < credits.len() ==> #[trigger] credits[i].0 < #[trigger] credits[j].0
            &&& pending matches Some(f) ==> events.contains(f) && is_feed_entry(log[f])
                && forall|i: int| 0 <= i < credits.len() ==> #[trigger] credits[i].0 < f
        }),
    decreases events.len(),
{
    if events.len() > 0 {
        let d = events.drop_last();
        let x = events.last();
        assert(increasing(d)) by {
            assert forall|i: int, j: int| 0 <= i < j < d.len() implies d[i] < d[j] by {
                assert(d[i] == events[i] && d[j] == events[j]);
            }
        }
        assert(indices_within(d, log.len() as int)) by {
            assert forall|k: int| 0 <= k < d.len() implies 0 <= #[trigger] d[k] < log.len() by {
                assert(d[k] == events[k]);
            }
        }
        lemma_feed_credits_ordered(log, d);
        let (pending, credits) = feed_credits(log, d);
        assert forall|c: int| d.contains(c) implies events.contains(c) && c < x by {
            let m = choose|m: int| 0 <= m < d.len() && d[m] == c;
            assert(events[m] == c);
        }
        assert(events.contains(x)) by {
            assert(events[events.len() - 1] == x);
        }
    }
}

/// Across a team's possessions, the credited feeds are Feed events of the
/// team, in increasing order, and all come before any possession that every
/// one of the possessions precedes.
proof fn lemma_team_credits_ordered(log: Seq<LogEntry>, ps: Seq<(Team, Seq<int>)>, team: Team, later: Seq<int>)
    requires
        ordered(ps),
        forall|k: int| 0 <= k < ps.len() ==> well_formed_possession(log, #[trigger] ps[k]),
    ensures
        ({
            let credits = team_credits(log, ps, team);
            &&& forall|i: int| 0 <= i < credits.len() ==> 0 <= #[trigger] credits[i].0 < log.len()
                && is_feed_of(log[credits[i].0], team)
            &&& forall|i: int, j: int| 0 <= i < j < credits.len() ==> #[trigger] credits[i].0 < #[trigger] credits[j].0
            &&& (forall|k: int| 0 <= k < ps.len() ==> precedes(#[trigger] ps[k].1, later)) ==> forall|i: int, b: int|
                0 <= i < credits.len() && 0 <= b < later.len() ==> #[trigger] credits[i].0 < #[trigger] later[b]
        }),
    decreases ps.len(),
{
    if ps.len() > 0 {
        let d = ps.drop_last();
        let p = ps.last();
        assert(ordered(d)) by {
            assert forall|k: int| 0 <= k < d.len() implies increasing(#[trigger] d[k].1) by {
                assert(d[k] == ps[k]);
            }
            assert forall|k1: int, k2: int| 0 <= k1 < k2 < d.len() implies precedes(#[trigger] d[k1].1, #[trigger] d[k2].1) by {
                assert(d[k1] == ps[k1] && d[k2] == ps[k2]);
            }
        }
        assert forall|k: int| 0 <= k < d.len() implies well_formed_possession(log, #[trigger] d[k]) by {
            assert(d[k] == ps[k]);
        }
        assert forall|k: int| 0 <= k < d.len() implies precedes(#[trigger] d[k].1, p.1) by {
            assert(d[k] == ps[k]);
            assert(ps[ps.len() - 1] == p);
        }
        lemma_team_credits_ordered(log, d, team, p.1);
        lemma_team_credits_ordered(log, d, team, later);
        let before = team_credits(log, d, team);
        if p.0 == team {
            assert(well_formed_possession(log, ps[ps.len() - 1]));
            assert(increasing(ps[ps.len() - 1].1));
            assert(indices_within(p.1, log.len() as int)) by {
                assert forall|k: int| 0 <= k < p.1.len() implies 0 <= #[trigger] p.1[k] < log.len() by {}
            }
            lemma_feed_credits_ordered(log, p.1);
            let new = feed_credits(log, p.1).1;
            let credits = before + new;
            assert forall|i: int| 0 <= i < credits.len() implies 0 <= #[trigger] credits[i].0 < log.len()
                && is_feed_of(log[credits[i].0], team) by {
                if i >= before.len() {
                    assert(credits[i] == new[i - before.len()]);
                    let m = choose|m: int| 0 <= m < p.1.len() && p.1[m] == new[i - before.len()].0;
                    assert(0 <= p.1[m] < log.len());
                }
            }
            assert forall|i: int, j: int| 0 <= i < j < credits.len() implies #[trigger] credits[i].0 < #[trigger] credits[j].0 by {
                if j < before.len() {
                    assert(credits[i] == before[i] && credits[j] == before[j]);
                } else if i < before.len() {
                    assert(credits[i] == before[i] && credits[j] == new[j - before.len()]);
                    let m = choose|m: int| 0 <= m < p.1.len() && p.1[m] == new[j - before.len()].0;
                    assert(before[i].0 < p.1[m]);
                } else {
                    assert(credits[i] == new[i - before.len()] && credits[j] == new[j - before.len()]);
                }
            }
            if forall|k: int| 0 <= k < ps.len() ==> precedes(#[trigger] ps[k].1, later) {
                assert forall|k: int| 0 <= k < d.len() implies precedes(#[trigger] d[k].1, later) by {
                    assert(d[k] == ps[k]);
                }
                assert(precedes(ps[ps.len() - 1].1, later));
                assert forall|i: int, b: int| 0 <= i < credits.len() && 0 <= b < later.len() implies #[trigger] credits[i].0 < #[trigger] later[b] by {
                    if i < before.len() {
                        assert(credits[i] == before[i]);
                    } else {
                        assert(credits[i] == new[i - before.len()]);
                        let m = choose|m: int| 0 <= m < p.1.len() && p.1[m] == new[i - before.len()].0;
                        assert(p.1[m] < later[b]);
                    }
                }
            }
        } else {
            if forall|k: int| 0 <= k < ps.len() ==> precedes(#[trigger] ps[k].1, later) {
                assert forall|k: int| 0 <= k < d.len() implies precedes(#[trigger] d[k].1, later) by {
                    assert(d[k] == ps[k]);
                }
            }
        }
    }
}

/// A player's line only grows as the log goes on.
proof fn lemma_line_feeds_monotone(log: Seq<LogEntry>, team: Team, name: Seq<char>, a: int, b: int)
    requires
        a <= b,
    ensures
        line_upto(log, team, name, a).feeds <= line_upto(log, team, name, b).feeds,
    decreases b - a,
{
    if a < b {
        lemma_line_feeds_monotone(log, team, name, a, b - 1);
    }
}

/// Credited feeds that are distinct Feed events of the team, in increasing
/// order, credit a player no more often than the player fed up to the last
/// of them.
proof fn lemma_credits_within_feeds(log: Seq<LogEntry>, team: Team, name: Seq<char>, credits: Seq<(int, bool)>)
    requires
        forall|i: int| 0 <= i < credits.len() ==> 0 <= #[trigger] credits[i].0 < log.len()
            && is_feed_of(log[credits[i].0], team),
        forall|i: int, j: int| 0 <= i < j < credits.len() ==> #[trigger] credits[i].0 < #[trigger] credits[j].0,
    ensures
        credits_for(log, credits, name).0 <= line_upto(log, team, name, if credits.len() == 0 {
            0
        } else {
            credits.last().0 + 1
        }).feeds,
    decreases credits.len(),
{
    if credits.len() > 0 {
        let d = credits.drop_last();
        let f = credits.last().0;
        assert forall|i: int| 0 <= i < d.len() implies 0 <= #[trigger] d[i].0 < log.len() && is_feed_of(log[d[i].0], team) by {
            assert(d[i] == credits[i]);
        }
        assert forall|i: int, j: int| 0 <= i < j < d.len() implies #[trigger] d[i].0 < #[trigger] d[j].0 by {
            assert(d[i] == credits[i] && d[j] == credits[j]);
        }
        lemma_credits_within_feeds(log, team, name, d);
        if d.len() > 0 {
            assert(d.last() == credits[credits.len() - 2]);
            assert(credits[credits.len() - 2].0 < credits[credits.len() - 1].0);
            lemma_line_feeds_monotone(log, team, name, d.last().0 + 1, f);
        } else {
            lemma_line_feeds_monotone(log, team, name, 0, f);
        }
        assert(0 <= credits[credits.len() - 1].0 < log.len() && is_feed_of(log[f], team));
    }
}

/// Every feed with shot credited to a player is one of the player's feeds.
proof fn lemma_feeds_with_shot_are_feeds(log: Seq<LogEntry>, team: Team, name: Seq<char>)
    ensures
        credits_for(log, team_credits(log, possessions_of(log), team), name).0 <= line_upto(
            log,
            team,
            name,
            log.len() as int,
        ).feeds,
{
    let ps = possessions_of(log);
    lemma_possessions_shape(log);
    lemma_possessions_ordered(log);
    lemma_team_credits_ordered(log, ps, team, Seq::empty());
    let credits = team_credits(log, ps, team);
    lemma_credits_within_feeds(log, team, name, credits);
    if credits.len() > 0 {
        assert(0 <= credits[credits.len() - 1].0 < log.len());
        lemma_line_feeds_monotone(log, team, name, credits.last().0 + 1, log.len() as int);
    } else {
        lemma_line_feeds_monotone(log, team, name, 0, log.len() as int);
    }
}

/// Every report is internally consistent: each team lists each player once
/// (by name); every player's goals are among their shots, completed feeds
/// among their feeds, gain sub-types among their gains, feeds with shot
/// among their feeds, and goal assists among their feeds with shot; and every
/// conversion count is at most the possessions it is a share of.
pub proof fn lemma_report_is_consistent(log: Seq<LogEntry>, team: Team)
    ensures
        distinct_strings(players_of(log, team)),
        forall|k: int| 0 <= k < players_of(log, team).len() ==> {
            let view = #[trigger] expected_player(log, team, players_of(log, team)[k]);
            &&& line_consistent(view.line)
            &&& view.feeds_with_shot <= view.line.feeds
            &&& view.goal_assists <= view.feeds_with_shot
        },
        conversions_upto(log, possessions_of(log), team).centre_pass_goals <= conversions_upto(log, possessions_of(log), team).centre_pass_total,
        conversions_upto(log, possessions_of(log), team).gain_goals <= conversions_upto(log, possessions_of(log), team).gain_total,
{
    lemma_players_upto(log, team, log.len() as int);
    lemma_conversions_bounded(log, possessions_of(log), team);
    assert forall|k: int| 0 <= k < players_of(log, team).len() implies {
        let view = #[trigger] expected_player(log, team, players_of(log, team)[k]);
        &&& line_consistent(view.line)
        &&& view.feeds_with_shot <= view.line.feeds
        &&& view.goal_assists <= view.feeds_with_shot
    } by {
        let name = players_of(log, team)[k]@;
        lemma_line_consistent(log, team, name, log.len() as int);
        lemma_feeds_with_shot_are_feeds(log, team, name);
        lemma_credits_for_bounded(log, team_credits(log, possessions_of(log), team), name);
    }
}

/// A log entry with its capture time removed.
pub open spec fn without_timestamp(entry: LogEntry) -> LogEntry {
    match entry {
        LogEntry::Event(event) => LogEntry::Event(Event { timestamp_ms: None, ..event }),
        LogEntry::QuarterBreak(_) => LogEntry::QuarterBreak(crate::event::QuarterBreak { timestamp_ms: None }),
        LogEntry::Substitution(substitution) => LogEntry::Substitution(
            crate::event::Substitution { timestamp_ms: None, ..substitution },
        ),
    }
}

/// The log as a clock-free entry path (e.g. a Shorthand import) would have
/// recorded it: every capture time removed.
pub open spec fn strip_timestamps(log: Seq<LogEntry>) -> Seq<LogEntry> {
    log.map_values(|entry: LogEntry| without_timestamp(entry))
}

proof fn lemma_strip_prefix(log: Seq<LogEntry>, n: int)
    requires
        0 <= n <= log.len(),
    ensures
        strip_timestamps(log).subrange(0, n) == strip_timestamps(log.subrange(0, n)),
        strip_timestamps(log).len() == log.len(),
{
    assert(strip_timestamps(log).subrange(0, n) =~= strip_timestamps(log.subrange(0, n)));
}

proof fn lemma_strip_drop_last(log: Seq<LogEntry>)
    requires
        log.len() > 0,
    ensures
        strip_timestamps(log).drop_last() == strip_timestamps(log.drop_last()),
        strip_timestamps(log).last() == without_timestamp(log.last()),
{
    assert(strip_timestamps(log).drop_last() =~= strip_timestamps(log.drop_last()));
}

proof fn lemma_strip_roster(log: Seq<LogEntry>, team: Team)
    ensures
        crate::roster::roster_of(strip_timestamps(log), team) == crate::roster::roster_of(log, team),
    decreases log.len(),
{
    if log.len() > 0 {
        lemma_strip_drop_last(log);
        lemma_strip_roster(log.drop_last(), team);
    }
}

proof fn lemma_strip_attribution(log: Seq<LogEntry>, i: int)
    requires
        0 <= i < log.len(),
    ensures
        attribution_at(strip_timestamps(log), i) == attribution_at(log, i),
{
    lemma_strip_prefix(log, i);
    lemma_strip_roster(log.subrange(0, i), Team::A);
    lemma_strip_roster(log.subrange(0, i), Team::B);
}

proof fn lemma_strip_players(log: Seq<LogEntry>, team: Team, n: int)
    requires
        n <= log.len(),
    ensures
        players_upto(strip_timestamps(log), team, n) == players_upto(log, team, n),
    decreases n,
{
    if n > 0 {
        lemma_strip_players(log, team, n - 1);
        lemma_strip_attribution(log, n - 1);
    }
}

proof fn lemma_strip_line(log: Seq<LogEntry>, team: Team, name: Seq<char>, n: int)
    requires
        n <= log.len(),
    ensures
        line_upto(strip_timestamps(log), team, name, n) == line_upto(log, team, name, n),
    decreases n,
{
    if n > 0 {
        lemma_strip_line(log, team, name, n - 1);
        lemma_strip_attribution(log, n - 1);
    }
}

proof fn lemma_strip_segment(log: Seq<LogEntry>)
    ensures
        segment(strip_timestamps(log)) == segment(log),
    decreases log.len(),
{
    if log.len() > 0 {
        lemma_strip_drop_last(log);
        lemma_strip_segment(log.drop_last());
    }
}

/// Indices all within the log.
pub open spec fn indices_within(events: Seq<int>, len: int) -> bool {
    forall|k: int| 0 <= k < events.len() ==> 0 <= #[trigger] events[k] < len
}

proof fn lemma_strip_feed_credits(log: Seq<LogEntry>, events: Seq<int>)
    requires
        indices_within(events, log.len() as int),
    ensures
        feed_credits(strip_timestamps(log), events) == feed_credits(log, events),
        forall|k: int| 0 <= k < feed_credits(log, events).1.len() ==> 0 <= (#[trigger] feed_credits(log, events).1[k]).0 < log.len(),
        feed_credits(log, events).0 matches Some(f) ==> 0 <= f < log.len(),
    decreases events.len(),
{
    if events.len() > 0 {
        let d = events.drop_last();
        assert(indices_within(d, log.len() as int)) by {
            assert forall|k: int| 0 <= k < d.len() implies 0 <= #[trigger] d[k] < log.len() by {
                assert(d[k] == events[k]);
            }
        }
        lemma_strip_feed_credits(log, d);
        assert(0 <= events.last() < log.len());
    }
}

proof fn lemma_strip_team_credits(log: Seq<LogEntry>, possessions: Seq<(Team, Seq<int>)>, team: Team)
    requires
        forall|k: int| 0 <= k < possessions.len() ==> indices_within(#[trigger] possessions[k].1, log.len() as int),
    ensures
        team_credits(strip_timestamps(log), possessions, team) == team_credits(log, possessions, team),
        forall|k: int| 0 <= k < team_credits(log, possessions, team).len() ==> 0 <= (#[trigger] team_credits(log, possessions, team)[k]).0 < log.len(),
    decreases possessions.len(),
{
    if possessions.len() > 0 {
        let d = possessions.drop_last();
        assert forall|k: int| 0 <= k < d.len() implies indices_within(#[trigger] d[k].1, log.len() as int) by {
            assert(d[k] == possessions[k]);
        }
        lemma_strip_team_credits(log, d, team);
        let p = possessions.last();
        assert(indices_within(p.1, log.len() as int));
        lemma_strip_feed_credits(log, p.1);
        let before = team_credits(log, d, team);
        let more = feed_credits(log, p.1).1;
        if p.0 == team {
            assert forall|k: int| 0 <= k < (before + more).len() implies 0 <= (#[trigger] (before + more)[k]).0 < log.len() by {
                if k >= before.len() {
                    assert((before + more)[k] == more[k - before.len()]);
                }
            }
        }
    }
}

proof fn lemma_strip_credits_for(log: Seq<LogEntry>, credits: Seq<(int, bool)>, name: Seq<char>)
    requires
        forall|k: int| 0 <= k < credits.len() ==> 0 <= (#[trigger] credits[k]).0 < log.len(),
    ensures
        credits_for(strip_timestamps(log), credits, name) == credits_for(log, credits, name),
    decreases credits.len(),
{
    if credits.len() > 0 {
        let d = credits.drop_last();
        assert forall|k: int| 0 <= k < d.len() implies 0 <= (#[trigger] d[k]).0 < log.len() by {
            assert(d[k] == credits[k]);
        }
        lemma_strip_credits_for(log, d, name);
        lemma_strip_attribution(log, credits.last().0);
    }
}

proof fn lemma_strip_conversions(log: Seq<LogEntry>, possessions: Seq<(Team, Seq<int>)>, team: Team)
    requires
        forall|k: int| 0 <= k < possessions.len() ==> well_formed_possession(log, #[trigger] possessions[k]),
    ensures
        conversions_upto(strip_timestamps(log), possessions, team) == conversions_upto(log, possessions, team),
    decreases possessions.len(),
{
    if possessions.len() > 0 {
        let d = possessions.drop_last();
        assert forall|k: int| 0 <= k < d.len() implies well_formed_possession(log, #[trigger] d[k]) by {
            assert(d[k] == possessions[k]);
        }
        lemma_strip_conversions(log, d, team);
        let p = possessions.last();
        assert(well_formed_possession(log, p));
        let stripped = strip_timestamps(log);
        assert(converted(stripped, p.1) == converted(log, p.1)) by {
            if converted(log, p.1) {
                let k = choose|k: int| 0 <= k < p.1.len() && is_goal_entry(#[trigger] log[p.1[k]]);
                assert(is_goal_entry(stripped[p.1[k]]));
            }
            if converted(stripped, p.1) {
                let k = choose|k: int| 0 <= k < p.1.len() && is_goal_entry(#[trigger] stripped[p.1[k]]);
                assert(is_goal_entry(log[p.1[k]]));
            }
        }
        assert(stripped[p.1[0]] == without_timestamp(log[p.1[0]]));
    }
}

proof fn lemma_strip_events(log: Seq<LogEntry>, team: Team)
    ensures
        goal_count(events_of(strip_timestamps(log)), team) == goal_count(events_of(log), team),
    decreases log.len(),
{
    if log.len() > 0 {
        lemma_strip_drop_last(log);
        lemma_strip_events(log.drop_last(), team);
        let stripped = strip_timestamps(log);
        match log.last() {
            LogEntry::Event(event) => {
                assert(events_of(stripped).drop_last() == events_of(stripped.drop_last()));
                assert(events_of(log).drop_last() == events_of(log.drop_last()));
            },
            _ => {},
        }
    }
}

proof fn lemma_strip_quarters(log: Seq<LogEntry>)
    ensures
        quarter_scores_of(strip_timestamps(log)) == quarter_scores_of(log),
    decreases log.len(),
{
    if log.len() > 0 {
        lemma_strip_drop_last(log);
        lemma_strip_quarters(log.drop_last());
    }
}

/// Count-based statistics stay exact on a timestamp-free log: removing every
/// capture time (as a Shorthand import has none) leaves the score, the
/// quarter scores, each team's player list, every player's counts and feed
/// descriptors, and the conversion rates unchanged.
pub proof fn lemma_counts_ignore_timestamps(log: Seq<LogEntry>, team: Team)
    ensures
        goal_count(events_of(strip_timestamps(log)), team) == goal_count(events_of(log), team),
        quarter_scores_of(strip_timestamps(log)) == quarter_scores_of(log),
        players_of(strip_timestamps(log), team) == players_of(log, team),
        forall|k: int| 0 <= k < players_of(log, team).len() ==> {
            let stripped = #[trigger] expected_player(strip_timestamps(log), team, players_of(log, team)[k]);
            let timed = expected_player(log, team, players_of(log, team)[k]);
            &&& stripped.line == timed.line
            &&& stripped.feeds_with_shot == timed.feeds_with_shot
            &&& stripped.goal_assists == timed.goal_assists
        },
        conversions_upto(strip_timestamps(log), possessions_of(strip_timestamps(log)), team) == conversions_upto(log, possessions_of(log), team),
{
    let stripped = strip_timestamps(log);
    lemma_strip_events(log, team);
    lemma_strip_quarters(log);
    lemma_strip_players(log, team, log.len() as int);
    lemma_strip_segment(log);
    assert(possessions_of(stripped) == possessions_of(log));
    lemma_possessions_shape(log);
    let ps = possessions_of(log);
    assert forall|k: int| 0 <= k < ps.len() implies indices_within(#[trigger] ps[k].1, log.len() as int) by {
        assert(well_formed_possession(log, ps[k]));
    }
    lemma_strip_team_credits(log, ps, team);
    lemma_strip_conversions(log, ps, team);
    assert forall|k: int| 0 <= k < players_of(log, team).len() implies {
        let s = #[trigger] expected_player(stripped, team, players_of(log, team)[k]);
        let t = expected_player(log, team, players_of(log, team)[k]);
        &&& s.line == t.line
        &&& s.feeds_with_shot == t.feeds_with_shot
        &&& s.goal_assists == t.goal_assists
    } by {
        let name = players_of(log, team)[k]@;
        lemma_strip_line(log, team, name, log.len() as int);
        lemma_strip_credits_for(log, team_credits(log, ps, team), name);
    }
}

/// ...but Playing Time needs the clock: on the timestamp-free log it is
/// unavailable for any team that has substitutions.
pub proof fn lemma_playing_time_needs_timestamps(log: Seq<LogEntry>, team: Team)
    requires
        crate::roster::team_substitutions(log, team).len() > 0,
    ensures
        playing_time_of(strip_timestamps(log), team) is None,
{
    lemma_strip_team_substitutions(log, team);
    let subs = crate::roster::team_substitutions(strip_timestamps(log), team);
    assert(subs[0].timestamp_ms is None);
}

proof fn lemma_strip_team_substitutions(log: Seq<LogEntry>, team: Team)
    ensures
        crate::roster::team_substitutions(strip_timestamps(log), team).len() == crate::roster::team_substitutions(log, team).len(),
        forall|k: int| 0 <= k < crate::roster::team_substitutions(strip_timestamps(log), team).len() ==>
            (#[trigger] crate::roster::team_substitutions(strip_timestamps(log), team)[k]).timestamp_ms is None,
    decreases log.len(),
{
    if log.len() > 0 {
        lemma_strip_drop_last(log);
        lemma_strip_team_substitutions(log.drop_last(), team);
    }
}

} // verus!

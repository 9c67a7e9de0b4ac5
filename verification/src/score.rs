//! Score derivation. Like every statistic, the score is derived from the
//! event log on demand and never stored.

use vstd::prelude::*;

use crate::event::{Action, Event, LogEntry, Team};

verus! {

/// The running score of a match, one tally per team.
#[derive(Debug, Clone, Copy, PartialEq, Eq, Structural)]
pub struct Score {
    pub team_a: u32,
    pub team_b: u32,
}

impl Score {
    /// The tally for one team.
    pub fn for_team(&self, team: Team) -> (r: u32)
        ensures
            r == (match team {
                Team::A => self.team_a,
                Team::B => self.team_b,
            }),
    {
        match team {
            Team::A => self.team_a,
            Team::B => self.team_b,
        }
    }
}

/// Whether `event` is a successful shot by `team`: one point for it.
pub open spec fn scores_for(event: Event, team: Team) -> bool {
    event.team == team && event.action.is_goal()
}

/// The number of successful Goal events credited to `team`.
pub open spec fn goal_count(events: Seq<Event>, team: Team) -> nat
    decreases events.len(),
{
    if events.len() == 0 {
        0
    } else {
        goal_count(events.drop_last(), team) + if scores_for(events.last(), team) {
            1nat
        } else {
            0nat
        }
    }
}

/// The coded events of a log, in order, without its markers.
pub open spec fn events_of(log: Seq<LogEntry>) -> Seq<Event>
    decreases log.len(),
{
    if log.len() == 0 {
        seq![]
    } else {
        match log.last() {
            LogEntry::Event(event) => events_of(log.drop_last()).push(event),
            _ => events_of(log.drop_last()),
        }
    }
}

/// The per-quarter scores of a log: one tally pair per quarter so far (a log
/// with no quarter break is in its first quarter), each goal counted in the
/// quarter it falls in.
pub open spec fn quarter_scores_of(log: Seq<LogEntry>) -> Seq<(nat, nat)>
    decreases log.len(),
{
    if log.len() == 0 {
        seq![(0nat, 0nat)]
    } else {
        let before = quarter_scores_of(log.drop_last());
        let (a, b) = before.last();
        match log.last() {
            LogEntry::QuarterBreak(_) => before.push((0nat, 0nat)),
            LogEntry::Event(event) => if scores_for(event, Team::A) {
                before.update(before.len() - 1, (a + 1, b))
            } else if scores_for(event, Team::B) {
                before.update(before.len() - 1, (a, b + 1))
            } else {
                before
            },
            LogEntry::Substitution(_) => before,
        }
    }
}

/// A count never exceeds the number of events counted.
pub proof fn lemma_goal_count_bounded(events: Seq<Event>, team: Team)
    ensures
        goal_count(events, team) <= events.len(),
    decreases events.len(),
{
    if events.len() > 0 {
        lemma_goal_count_bounded(events.drop_last(), team);
    }
}

/// Derive the score from the events of a match: one point per successful
/// Goal event (a Goal with `failed: true` is a missed shot), credited to the
/// team the event carries.
pub fn derive_score(events: &[Event]) -> (r: Score)
    requires
        events@.len() <= u32::MAX,
    ensures
        r.team_a == goal_count(events@, Team::A),
        r.team_b == goal_count(events@, Team::B),
{
    let mut score = Score { team_a: 0, team_b: 0 };
    let mut i: usize = 0;
    while i < events.len()
        invariant
            0 <= i <= events@.len(),
            events@.len() <= u32::MAX,
            score.team_a == goal_count(events@.subrange(0, i as int), Team::A),
            score.team_b == goal_count(events@.subrange(0, i as int), Team::B),
        decreases events@.len() - i,
    {
        let event = events[i];
        proof {
            assert(events@.subrange(0, i + 1).drop_last() == events@.subrange(0, i as int));
            lemma_goal_count_bounded(events@.subrange(0, i as int), Team::A);
            lemma_goal_count_bounded(events@.subrange(0, i as int), Team::B);
        }
        if let Action::Goal { failed: false, .. } = event.action {
            match event.team {
                Team::A => score.team_a = score.team_a + 1,
                Team::B => score.team_b = score.team_b + 1,
            }
        }
        i = i + 1;
    }
    assert(events@.subrange(0, events@.len() as int) == events@);
    score
}

/// The coded events of a log, in order.
pub fn log_events(log: &[LogEntry]) -> (r: Vec<Event>)
    ensures
        r@ == events_of(log@),
{
    let mut events: Vec<Event> = Vec::new();
    let mut i: usize = 0;
    while i < log.len()
        invariant
            0 <= i <= log@.len(),
            events@ == events_of(log@.subrange(0, i as int)),
        decreases log@.len() - i,
    {
        assert(log@.subrange(0, i + 1).drop_last() == log@.subrange(0, i as int));
        if let LogEntry::Event(event) = &log[i] {
            events.push(*event);
        }
        i = i + 1;
    }
    assert(log@.subrange(0, log@.len() as int) == log@);
    events
}

/// A log has no more events than entries.
pub(crate) proof fn lemma_events_of_bounded(log: Seq<LogEntry>)
    ensures
        events_of(log).len() <= log.len(),
    decreases log.len(),
{
    if log.len() > 0 {
        lemma_events_of_bounded(log.drop_last());
    }
}

/// There is always a current quarter, and its tallies never exceed the
/// match's.
proof fn lemma_quarter_scores_shape(log: Seq<LogEntry>)
    ensures
        quarter_scores_of(log).len() >= 1,
        quarter_scores_of(log).last().0 <= goal_count(events_of(log), Team::A),
        quarter_scores_of(log).last().1 <= goal_count(events_of(log), Team::B),
    decreases log.len(),
{
    if log.len() > 0 {
        let prefix = log.drop_last();
        lemma_quarter_scores_shape(prefix);
        let before = quarter_scores_of(prefix);
        match log.last() {
            LogEntry::Event(event) => {
                assert(events_of(log) == events_of(prefix).push(event));
                assert(events_of(log).drop_last() == events_of(prefix));
                assert(events_of(log).last() == event);
            },
            _ => {
                assert(events_of(log) == events_of(prefix));
            },
        }
    }
}

/// Derive the per-quarter scores of a log: one [`Score`] per quarter so far,
/// so the current quarter is the length of the result.
pub fn derive_quarter_scores(log: &[LogEntry]) -> (r: Vec<Score>)
    requires
        log@.len() <= u32::MAX,
    ensures
        r@.len() == quarter_scores_of(log@).len(),
        forall|q: int|
            0 <= q < r@.len() ==> (#[trigger] r@[q]).team_a == quarter_scores_of(log@)[q].0
                && r@[q].team_b == quarter_scores_of(log@)[q].1,
{
    let mut scores: Vec<Score> = Vec::new();
    scores.push(Score { team_a: 0, team_b: 0 });
    let mut i: usize = 0;
    while i < log.len()
        invariant
            0 <= i <= log@.len(),
            log@.len() <= u32::MAX,
            scores@.len() == quarter_scores_of(log@.subrange(0, i as int)).len(),
            forall|q: int|
                0 <= q < scores@.len() ==> (#[trigger] scores@[q]).team_a == quarter_scores_of(
                    log@.subrange(0, i as int),
                )[q].0 && scores@[q].team_b == quarter_scores_of(log@.subrange(0, i as int))[q].1,
        decreases log@.len() - i,
    {
        let ghost prefix = log@.subrange(0, i as int);
        proof {
            assert(log@.subrange(0, i + 1).drop_last() == prefix);
            lemma_quarter_scores_shape(prefix);
            lemma_events_of_bounded(prefix);
            lemma_goal_count_bounded(events_of(prefix), Team::A);
            lemma_goal_count_bounded(events_of(prefix), Team::B);
        }
        let last = scores.len() - 1;
        match &log[i] {
            LogEntry::QuarterBreak(_) => {
                scores.push(Score { team_a: 0, team_b: 0 });
            },
            LogEntry::Event(event) => {
                if let Action::Goal { failed: false, .. } = event.action {
                    let current = scores[last];
                    let updated = match event.team {
                        Team::A => Score { team_a: current.team_a + 1, team_b: current.team_b },
                        Team::B => Score { team_a: current.team_a, team_b: current.team_b + 1 },
                    };
                    scores.set(last, updated);
                }
            },
            LogEntry::Substitution(_) => {},
        }
        i = i + 1;
    }
    assert(log@.subrange(0, log@.len() as int) == log@);
    scores
}

// ---------------------------------------------------------------------------
// Laws
// ---------------------------------------------------------------------------

/// Scoring is additive over a log: the score of two stretches of play played
/// one after the other is the sum of their scores. In particular undoing the
/// last event takes exactly its point (if any) off the score.
pub proof fn lemma_goal_count_additive(first: Seq<Event>, second: Seq<Event>, team: Team)
    ensures
        goal_count(first + second, team) == goal_count(first, team) + goal_count(second, team),
    decreases second.len(),
{
    if second.len() == 0 {
        assert(first + second == first);
    } else {
        assert((first + second).drop_last() == first + second.drop_last());
        assert((first + second).last() == second.last());
        lemma_goal_count_additive(first, second.drop_last(), team);
    }
}

/// The sum of the first components of a sequence of tally pairs.
pub open spec fn sum_a(scores: Seq<(nat, nat)>) -> nat
    decreases scores.len(),
{
    if scores.len() == 0 {
        0
    } else {
        sum_a(scores.drop_last()) + scores.last().0
    }
}

/// The sum of the second components of a sequence of tally pairs.
pub open spec fn sum_b(scores: Seq<(nat, nat)>) -> nat
    decreases scores.len(),
{
    if scores.len() == 0 {
        0
    } else {
        sum_b(scores.drop_last()) + scores.last().1
    }
}

/// The number of quarter breaks in a log.
pub open spec fn break_count(log: Seq<LogEntry>) -> nat
    decreases log.len(),
{
    if log.len() == 0 {
        0
    } else {
        break_count(log.drop_last()) + if log.last() is QuarterBreak {
            1nat
        } else {
            0nat
        }
    }
}

proof fn lemma_sum_update_last(scores: Seq<(nat, nat)>, a: nat, b: nat)
    requires
        scores.len() >= 1,
    ensures
        sum_a(scores.update(scores.len() - 1, (a, b))) == sum_a(scores.drop_last()) + a,
        sum_b(scores.update(scores.len() - 1, (a, b))) == sum_b(scores.drop_last()) + b,
{
    let updated = scores.update(scores.len() - 1, (a, b));
    assert(updated.drop_last() == scores.drop_last());
}

/// The quarter-by-quarter breakdown accounts for the whole score: there is
/// one quarter more than there are quarter breaks, and each team's quarter
/// tallies sum to its match score.
pub proof fn lemma_quarters_sum_to_score(log: Seq<LogEntry>)
    ensures
        quarter_scores_of(log).len() == break_count(log) + 1,
        sum_a(quarter_scores_of(log)) == goal_count(events_of(log), Team::A),
        sum_b(quarter_scores_of(log)) == goal_count(events_of(log), Team::B),
    decreases log.len(),
{
    if log.len() == 0 {
        let first: Seq<(nat, nat)> = seq![(0nat, 0nat)];
        assert(first.drop_last() =~= Seq::<(nat, nat)>::empty());
        assert(sum_a(Seq::<(nat, nat)>::empty()) == 0);
        assert(sum_b(Seq::<(nat, nat)>::empty()) == 0);
        assert(first.last() == (0nat, 0nat));
        assert(sum_a(first) == 0);
        assert(sum_b(first) == 0);
    } else {
        let prefix = log.drop_last();
        lemma_quarters_sum_to_score(prefix);
        lemma_quarter_scores_shape(prefix);
        let before = quarter_scores_of(prefix);
        let (a, b) = before.last();
        match log.last() {
            LogEntry::QuarterBreak(_) => {
                assert(before.push((0nat, 0nat)).drop_last() == before);
                assert(events_of(log) == events_of(prefix));
            },
            LogEntry::Event(event) => {
                assert(events_of(log).drop_last() == events_of(prefix));
                assert(events_of(log).last() == event);
                if scores_for(event, Team::A) {
                    lemma_sum_update_last(before, a + 1, b);
                } else if scores_for(event, Team::B) {
                    lemma_sum_update_last(before, a, b + 1);
                }
            },
            LogEntry::Substitution(_) => {
                assert(events_of(log) == events_of(prefix));
            },
        }
    }
}

} // verus!

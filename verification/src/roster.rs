//! Roster reconstruction, per-event player attribution, and Playing Time.
//!
//! The roster is never stored: it is the fold of a team's Substitution
//! entries over the log, so it can be reconstructed at any point in the
//! match. Attribution assigns each coded event to the player occupying its
//! position at that moment; Playing Time integrates the substitution
//! timestamps and is unavailable (never zeroed or guessed) when a log has no
//! timestamps.

use vstd::prelude::*;

use crate::event::{CourtPosition, LogEntry, Substitution, Team};

verus! {

/// Which player occupies each position for one team at some point in a
/// match. Unassigned positions (an incomplete roster) are `None`.
#[derive(Debug, Clone, PartialEq, Eq)]
pub struct Roster {
    pub gs: Option<String>,
    pub ga: Option<String>,
    pub wa: Option<String>,
    pub c: Option<String>,
    pub wd: Option<String>,
    pub gd: Option<String>,
    pub gk: Option<String>,
}

impl Default for Roster {
    fn default() -> (r: Roster)
        ensures
            r == Roster::empty(),
    {
        Roster { gs: None, ga: None, wa: None, c: None, wd: None, gd: None, gk: None }
    }
}

impl Roster {
    /// The roster with every position open.
    pub open spec fn empty() -> Roster {
        Roster { gs: None, ga: None, wa: None, c: None, wd: None, gd: None, gk: None }
    }

    /// The occupant of `position`.
    pub open spec fn occupant(self, position: CourtPosition) -> Option<String> {
        match position {
            CourtPosition::GS => self.gs,
            CourtPosition::GA => self.ga,
            CourtPosition::WA => self.wa,
            CourtPosition::C => self.c,
            CourtPosition::WD => self.wd,
            CourtPosition::GD => self.gd,
            CourtPosition::GK => self.gk,
        }
    }

    /// This roster with `player` put in `position`.
    pub open spec fn with(self, position: CourtPosition, player: String) -> Roster {
        match position {
            CourtPosition::GS => Roster { gs: Some(player), ..self },
            CourtPosition::GA => Roster { ga: Some(player), ..self },
            CourtPosition::WA => Roster { wa: Some(player), ..self },
            CourtPosition::C => Roster { c: Some(player), ..self },
            CourtPosition::WD => Roster { wd: Some(player), ..self },
            CourtPosition::GD => Roster { gd: Some(player), ..self },
            CourtPosition::GK => Roster { gk: Some(player), ..self },
        }
    }

    /// The player currently occupying `position`, if any.
    pub fn player_at(&self, position: CourtPosition) -> (r: Option<&str>)
        ensures
            match self.occupant(position) {
                Some(player) => r matches Some(name) && name@ == player@,
                None => r is None,
            },
    {
        match self.slot(position) {
            Some(player) => Some(player.as_str()),
            None => None,
        }
    }

    /// Put `player` in `position`, replacing any previous occupant.
    pub fn assign(&mut self, position: CourtPosition, player: String)
        ensures
            *final(self) == old(self).with(position, player),
    {
        match position {
            CourtPosition::GS => self.gs = Some(player),
            CourtPosition::GA => self.ga = Some(player),
            CourtPosition::WA => self.wa = Some(player),
            CourtPosition::C => self.c = Some(player),
            CourtPosition::WD => self.wd = Some(player),
            CourtPosition::GD => self.gd = Some(player),
            CourtPosition::GK => self.gk = Some(player),
        }
    }

    fn slot(&self, position: CourtPosition) -> (r: &Option<String>)
        ensures
            *r == self.occupant(position),
    {
        match position {
            CourtPosition::GS => &self.gs,
            CourtPosition::GA => &self.ga,
            CourtPosition::WA => &self.wa,
            CourtPosition::C => &self.c,
            CourtPosition::WD => &self.wd,
            CourtPosition::GD => &self.gd,
            CourtPosition::GK => &self.gk,
        }
    }

    /// A copy of the occupant of `position`.
    fn occupant_of(&self, position: CourtPosition) -> (r: Option<String>)
        ensures
            r == self.occupant(position),
    {
        match self.slot(position) {
            Some(player) => Some(player.clone()),
            None => None,
        }
    }
}

/// One team's roster after replaying `log`: each position holds the player
/// named by the team's most recent Substitution to it.
pub open spec fn roster_of(log: Seq<LogEntry>, team: Team) -> Roster
    decreases log.len(),
{
    if log.len() == 0 {
        Roster::empty()
    } else {
        let before = roster_of(log.drop_last(), team);
        match log.last() {
            LogEntry::Substitution(substitution) => if substitution.team == team {
                before.with(substitution.position, substitution.player)
            } else {
                before
            },
            _ => before,
        }
    }
}

/// The player a log entry is attributed to: for a coded event, the occupant
/// of its position for its team just before it; `None` for markers,
/// TEAM-attributed events, and positions no substitution has filled yet.
pub open spec fn attribution_at(log: Seq<LogEntry>, index: int) -> Option<String> {
    match log[index] {
        LogEntry::Event(event) => match CourtPosition::narrow(event.action.position()) {
            Some(position) => roster_of(log.subrange(0, index), event.team).occupant(position),
            None => None,
        },
        _ => None,
    }
}

/// Derive one team's roster after replaying the whole log.
pub fn derive_roster(log: &[LogEntry], team: Team) -> (r: Roster)
    ensures
        r == roster_of(log@, team),
{
    let mut roster = Roster::default();
    let mut i: usize = 0;
    while i < log.len()
        invariant
            0 <= i <= log@.len(),
            roster == roster_of(log@.subrange(0, i as int), team),
        decreases log@.len() - i,
    {
        assert(log@.subrange(0, i + 1).drop_last() == log@.subrange(0, i as int));
        if let LogEntry::Substitution(substitution) = &log[i] {
            if substitution.team == team {
                roster.assign(substitution.position, substitution.player.clone());
            }
        }
        i = i + 1;
    }
    assert(log@.subrange(0, log@.len() as int) == log@);
    roster
}

/// Attribute every log entry to a player: for a coded event, the player
/// occupying its position for its team at that point in the log. The result
/// is parallel to `log`.
pub fn derive_attributions(log: &[LogEntry]) -> (r: Vec<Option<String>>)
    ensures
        r@.len() == log@.len(),
        forall|i: int| 0 <= i < log@.len() ==> #[trigger] r@[i] == attribution_at(log@, i),
{
    let mut team_a = Roster::default();
    let mut team_b = Roster::default();
    let mut attributions: Vec<Option<String>> = Vec::new();
    let mut i: usize = 0;
    while i < log.len()
        invariant
            0 <= i <= log@.len(),
            team_a == roster_of(log@.subrange(0, i as int), Team::A),
            team_b == roster_of(log@.subrange(0, i as int), Team::B),
            attributions@.len() == i,
            forall|j: int| 0 <= j < i ==> #[trigger] attributions@[j] == attribution_at(log@, j),
        decreases log@.len() - i,
    {
        assert(log@.subrange(0, i + 1).drop_last() == log@.subrange(0, i as int));
        let attribution = match &log[i] {
            LogEntry::Substitution(substitution) => {
                match substitution.team {
                    Team::A => team_a.assign(substitution.position, substitution.player.clone()),
                    Team::B => team_b.assign(substitution.position, substitution.player.clone()),
                }
                None
            },
            LogEntry::QuarterBreak(_) => None,
            LogEntry::Event(event) => match CourtPosition::from_position(event.action.position()) {
                Some(position) => match event.team {
                    Team::A => team_a.occupant_of(position),
                    Team::B => team_b.occupant_of(position),
                },
                None => None,
            },
        };
        attributions.push(attribution);
        i = i + 1;
    }
    attributions
}

// ---------------------------------------------------------------------------
// Playing Time
// ---------------------------------------------------------------------------

/// One player's derived time on court.
#[derive(Debug, Clone, PartialEq, Eq)]
pub struct PlayingTime {
    pub player: String,
    pub milliseconds: i64,
}

/// One team's substitutions, in log order.
pub open spec fn team_substitutions(log: Seq<LogEntry>, team: Team) -> Seq<Substitution>
    decreases log.len(),
{
    if log.len() == 0 {
        seq![]
    } else {
        let before = team_substitutions(log.drop_last(), team);
        match log.last() {
            LogEntry::Substitution(substitution) => if substitution.team == team {
                before.push(substitution)
            } else {
                before
            },
            _ => before,
        }
    }
}

/// The latest capture time anywhere in the log, if any entry has one.
pub open spec fn latest_timestamp(log: Seq<LogEntry>) -> Option<i64>
    decreases log.len(),
{
    if log.len() == 0 {
        None
    } else {
        let before = latest_timestamp(log.drop_last());
        match log.last().timestamp_ms() {
            None => before,
            Some(t) => match before {
                Some(m) => if m >= t { Some(m) } else { Some(t) },
                None => Some(t),
            },
        }
    }
}

/// The index of the first element satisfying `pred`, or -1 when none does.
pub open spec fn first_index<A>(s: Seq<A>, pred: spec_fn(A) -> bool) -> int
    decreases s.len(),
{
    if s.len() == 0 {
        -1
    } else {
        let before = first_index(s.drop_last(), pred);
        if before >= 0 {
            before
        } else if pred(s.last()) {
            s.len() - 1
        } else {
            -1
        }
    }
}

/// Playing time accumulated so far: who is on court at each filled position
/// (with the time they went on), each player's credited total in order of
/// first appearance, and whether every stint and total so far fits the `i64`
/// arithmetic it is computed in.
pub ghost struct Stints {
    pub on_court: Seq<(CourtPosition, String, int)>,
    pub totals: Seq<(String, int)>,
    pub fits: bool,
}

/// Whether `n` is representable as an `i64`.
pub open spec fn in_i64(n: int) -> bool {
    i64::MIN <= n <= i64::MAX
}

/// Credit `player` with the stint from `on` to `off` (none if the clock ran
/// backwards), adding to their total or starting one.
pub open spec fn credit(totals: Seq<(String, int)>, fits: bool, player: String, on: int, off: int) -> (Seq<(String, int)>, bool) {
    let difference = off - on;
    let stint = if difference > 0 { difference } else { 0 };
    let k = first_index(totals, |t: (String, int)| t.0@ == player@);
    if k >= 0 {
        let total = totals[k].1 + stint;
        (totals.update(k, (totals[k].0, total)), fits && in_i64(difference) && in_i64(total))
    } else {
        (totals.push((player, stint)), fits && in_i64(difference))
    }
}

/// Make sure `player` has a total, starting one at zero after the others
/// when they have none yet: totals are listed in order of first appearance.
pub open spec fn enroll(totals: Seq<(String, int)>, player: String) -> Seq<(String, int)> {
    if first_index(totals, |t: (String, int)| t.0@ == player@) >= 0 {
        totals
    } else {
        totals.push((player, 0))
    }
}

/// Replay a team's substitutions: each one takes the previous occupant of
/// its position off (crediting their stint) and puts its player on, listing
/// the player on first appearance.
pub open spec fn replay_stints(subs: Seq<Substitution>) -> Stints
    decreases subs.len(),
{
    if subs.len() == 0 {
        Stints { on_court: seq![], totals: seq![], fits: true }
    } else {
        let before = replay_stints(subs.drop_last());
        let substitution = subs.last();
        let now = substitution.timestamp_ms.unwrap() as int;
        let k = first_index(before.on_court, |slot: (CourtPosition, String, int)| slot.0 == substitution.position);
        if k >= 0 {
            let (totals, fits) = credit(before.totals, before.fits, before.on_court[k].1, before.on_court[k].2, now);
            Stints {
                on_court: before.on_court.update(k, (substitution.position, substitution.player, now)),
                totals: enroll(totals, substitution.player),
                fits,
            }
        } else {
            Stints {
                on_court: before.on_court.push((substitution.position, substitution.player, now)),
                totals: enroll(before.totals, substitution.player),
                fits: before.fits,
            }
        }
    }
}

/// Credit everyone still on court up to `end`, in order of the positions'
/// first filling.
pub open spec fn close_stints(on_court: Seq<(CourtPosition, String, int)>, totals: Seq<(String, int)>, fits: bool, end: int) -> (Seq<(String, int)>, bool)
    decreases on_court.len(),
{
    if on_court.len() == 0 {
        (totals, fits)
    } else {
        let (t, f) = close_stints(on_court.drop_last(), totals, fits, end);
        let (_, player, on) = on_court.last();
        credit(t, f, player, on, end)
    }
}

/// Whether any of the substitutions lacks a timestamp.
pub open spec fn some_untimed(subs: Seq<Substitution>) -> bool {
    exists|k: int| 0 <= k < subs.len() && (#[trigger] subs[k]).timestamp_ms is None
}

/// The totals and fit of a team's playing time, when the substitutions are
/// all timestamped (so the log has a latest timestamp).
pub open spec fn playing_time_totals(log: Seq<LogEntry>, team: Team) -> (Seq<(String, int)>, bool) {
    let stints = replay_stints(team_substitutions(log, team));
    close_stints(stints.on_court, stints.totals, stints.fits, latest_timestamp(log).unwrap() as int)
}

/// Each of one team's players' time on court, in order of first appearance
/// (the player's first substitution onto court): from
/// the timestamp of the substitution that placed them until another
/// substitution replaces them in that position, or until the latest moment
/// the log knows about. `None` (unavailable, not zero) when any of the
/// team's substitutions lacks a timestamp; an empty list when the team has
/// no substitutions at all.
pub open spec fn playing_time_of(log: Seq<LogEntry>, team: Team) -> Option<Seq<(String, int)>> {
    let subs = team_substitutions(log, team);
    if subs.len() == 0 {
        Some(seq![])
    } else if some_untimed(subs) {
        None
    } else {
        Some(playing_time_totals(log, team).0)
    }
}

/// Whether the `i64` arithmetic of a team's playing time stays in range:
/// every stint (off minus on) and every running total is representable.
pub open spec fn playing_time_fits(log: Seq<LogEntry>, team: Team) -> bool {
    let subs = team_substitutions(log, team);
    subs.len() == 0 || some_untimed(subs) || playing_time_totals(log, team).1
}

/// `first_index` finds the first element satisfying the predicate, or
/// reports that none does.
pub proof fn lemma_first_index<A>(s: Seq<A>, pred: spec_fn(A) -> bool)
    ensures
        -1 <= first_index(s, pred) < s.len(),
        first_index(s, pred) >= 0 ==> pred(s[first_index(s, pred)]),
        forall|j: int| 0 <= j < first_index(s, pred) ==> !pred(#[trigger] s[j]),
        first_index(s, pred) == -1 ==> forall|j: int| 0 <= j < s.len() ==> !pred(#[trigger] s[j]),
    decreases s.len(),
{
    if s.len() > 0 {
        let d = s.drop_last();
        lemma_first_index(d, pred);
        let before = first_index(d, pred);
        assert forall|j: int| 0 <= j < d.len() implies d[j] == s[j] by {}
        if before >= 0 {
            assert(pred(s[before]));
            assert forall|j: int| 0 <= j < before implies !pred(#[trigger] s[j]) by {
                assert(!pred(d[j]));
            }
        } else {
            assert forall|j: int| 0 <= j < d.len() implies !pred(#[trigger] s[j]) by {
                assert(!pred(d[j]));
            }
        }
    }
}

/// The first satisfying index is the one before which nothing satisfies.
pub(crate) proof fn lemma_first_index_found<A>(s: Seq<A>, pred: spec_fn(A) -> bool, j: int)
    requires
        0 <= j < s.len(),
        pred(s[j]),
        forall|i: int| 0 <= i < j ==> !pred(#[trigger] s[i]),
    ensures
        first_index(s, pred) == j,
{
    lemma_first_index(s, pred);
}

/// The exec form of playing-time totals.
pub open spec fn totals_view(times: Seq<PlayingTime>) -> Seq<(String, int)> {
    times.map_values(|t: PlayingTime| (t.player, t.milliseconds as int))
}

/// The exec form of who is on court.
pub open spec fn on_court_view(on_court: Seq<(CourtPosition, String, i64)>) -> Seq<(CourtPosition, String, int)> {
    on_court.map_values(|slot: (CourtPosition, String, i64)| (slot.0, slot.1, slot.2 as int))
}

proof fn lemma_credit_fits(totals: Seq<(String, int)>, fits: bool, player: String, on: int, off: int)
    ensures
        credit(totals, fits, player, on, off).1 ==> fits,
        credit(totals, fits, player, on, off).1 == (fits && credit(totals, true, player, on, off).1),
        credit(totals, fits, player, on, off).0 == credit(totals, true, player, on, off).0,
{
}

proof fn lemma_close_stints_fits(on_court: Seq<(CourtPosition, String, int)>, totals: Seq<(String, int)>, fits: bool, end: int, k: int)
    requires
        0 <= k <= on_court.len(),
    ensures
        close_stints(on_court, totals, fits, end).1 ==> close_stints(on_court.take(k), totals, fits, end).1,
        close_stints(on_court, totals, fits, end).1 ==> fits,
    decreases on_court.len(),
{
    if on_court.len() > 0 {
        let (t, f) = close_stints(on_court.drop_last(), totals, fits, end);
        let (_, player, on) = on_court.last();
        lemma_credit_fits(t, f, player, on, end);
        if k < on_court.len() {
            assert(on_court.drop_last().take(k) == on_court.take(k));
            lemma_close_stints_fits(on_court.drop_last(), totals, fits, end, k);
        } else {
            assert(on_court.take(k) == on_court);
            lemma_close_stints_fits(on_court.drop_last(), totals, fits, end, 0);
        }
    } else {
        assert(on_court.take(k) == on_court);
    }
}

proof fn lemma_replay_fits(subs: Seq<Substitution>, k: int)
    requires
        0 <= k <= subs.len(),
    ensures
        replay_stints(subs).fits ==> replay_stints(subs.take(k)).fits,
    decreases subs.len(),
{
    if k < subs.len() {
        let before = replay_stints(subs.drop_last());
        let substitution = subs.last();
        let now = substitution.timestamp_ms.unwrap() as int;
        let j = first_index(before.on_court, |slot: (CourtPosition, String, int)| slot.0 == substitution.position);
        if j >= 0 {
            lemma_credit_fits(before.totals, before.fits, before.on_court[j].1, before.on_court[j].2, now);
        }
        assert(subs.drop_last().take(k) == subs.take(k));
        lemma_replay_fits(subs.drop_last(), k);
    } else {
        assert(subs.take(k) == subs);
    }
}

/// The team's substitutions within a prefix of the log are a prefix of the
/// team's substitutions in the whole log.
proof fn lemma_team_substitutions_prefix(log: Seq<LogEntry>, team: Team, i: int)
    requires
        0 <= i <= log.len(),
    ensures
        team_substitutions(log.take(i), team).len() <= team_substitutions(log, team).len(),
        team_substitutions(log.take(i), team) == team_substitutions(log, team).take(
            team_substitutions(log.take(i), team).len() as int,
        ),
    decreases log.len(),
{
    if i < log.len() {
        assert(log.drop_last().take(i) == log.take(i));
        lemma_team_substitutions_prefix(log.drop_last(), team, i);
        let before = team_substitutions(log.drop_last(), team);
        let n = team_substitutions(log.take(i), team).len() as int;
        assert(team_substitutions(log, team).take(n) == before.take(n));
    } else {
        assert(log.take(i) == log);
        assert(team_substitutions(log, team).take(team_substitutions(log, team).len() as int) == team_substitutions(log, team));
    }
}

/// Credit `player` with the stint from `on` to `off` in `totals`, reporting
/// whether the stint and the new total fit in an `i64`; `totals` is only
/// changed when they do.
fn credit_stint(totals: &mut Vec<PlayingTime>, player: &String, on: i64, off: i64) -> (ok: bool)
    ensures
        ok == credit(totals_view(old(totals)@), true, *player, on as int, off as int).1,
        ok ==> totals_view(final(totals)@) == credit(totals_view(old(totals)@), true, *player, on as int, off as int).0,
{
    let ghost view = totals_view(totals@);
    let ghost pred = |t: (String, int)| t.0@ == player@;
    proof {
        lemma_first_index(view, pred);
    }
    // Saturate rather than trust a clock that ran backwards.
    let difference = match off.checked_sub(on) {
        Some(d) => d,
        None => return false,
    };
    let stint = if difference > 0 { difference } else { 0 };
    let mut j: usize = 0;
    while j < totals.len()
        invariant
            0 <= j <= totals@.len(),
            view == totals_view(totals@),
            totals@ == old(totals)@,
            pred == (|t: (String, int)| t.0@ == player@),
            in_i64(off - on),
            stint == (if off - on > 0 { off - on } else { 0 }),
            forall|i: int| 0 <= i < j ==> !pred(#[trigger] view[i]),
        decreases totals@.len() - j,
    {
        assert(view[j as int] == (totals@[j as int].player, totals@[j as int].milliseconds as int));
        if totals[j].player == *player {
            proof {
                assert(pred(view[j as int]));
                lemma_first_index_found(view, pred, j as int);
            }
            let total = match totals[j].milliseconds.checked_add(stint) {
                Some(total) => total,
                None => return false,
            };
            let name = totals[j].player.clone();
            totals.set(j, PlayingTime { player: name, milliseconds: total });
            assert(totals_view(totals@) =~= view.update(j as int, (view[j as int].0, total as int)));
            return true;
        }
        j = j + 1;
    }
    totals.push(PlayingTime { player: player.clone(), milliseconds: stint });
    assert(totals_view(totals@) =~= view.push((*player, stint as int)));
    true
}

/// List `player` in `totals` with zero time when not yet listed.
fn enroll_player(totals: &mut Vec<PlayingTime>, player: &String)
    ensures
        totals_view(final(totals)@) == enroll(totals_view(old(totals)@), *player),
{
    let ghost view = totals_view(totals@);
    let ghost pred = |t: (String, int)| t.0@ == player@;
    proof {
        lemma_first_index(view, pred);
    }
    let mut j: usize = 0;
    while j < totals.len()
        invariant
            0 <= j <= totals@.len(),
            view == totals_view(totals@),
            totals@ == old(totals)@,
            pred == (|t: (String, int)| t.0@ == player@),
            forall|i: int| 0 <= i < j ==> !pred(#[trigger] view[i]),
        decreases totals@.len() - j,
    {
        assert(view[j as int] == (totals@[j as int].player, totals@[j as int].milliseconds as int));
        if totals[j].player == *player {
            proof {
                assert(pred(view[j as int]));
                lemma_first_index_found(view, pred, j as int);
            }
            return;
        }
        j = j + 1;
    }
    totals.push(PlayingTime { player: player.clone(), milliseconds: 0 });
    assert(totals_view(totals@) =~= view.push((*player, 0int)));
}

/// Derive each of one team's players' time on court, in order of first
/// appearance (each player's first substitution onto court). A player is on court from the timestamp of the substitution that
/// placed them until another substitution replaces them in that position, or
/// until the last timestamped moment the log knows about; a player who
/// occupies several positions in sequence accumulates across stints.
///
/// Returns `None` (playing time unavailable, not zero) when any of the
/// team's substitutions lacks a timestamp.
pub fn derive_playing_time(log: &[LogEntry], team: Team) -> (r: Option<Vec<PlayingTime>>)
    requires
        playing_time_fits(log@, team),
    ensures
        match playing_time_of(log@, team) {
            None => r is None,
            Some(totals) => r matches Some(times) && totals_view(times@) == totals,
        },
{
    match try_derive_playing_time(log, team) {
        Some(times) => times,
        None => {
            proof {
                assert(false);
            }
            None
        },
    }
}

/// [`derive_playing_time`] for any log: `None` when a stint or a running
/// total would not fit the `i64` milliseconds it is kept in (see
/// [`playing_time_fits`]), and otherwise `Some` of what
/// [`derive_playing_time`] returns.
pub fn try_derive_playing_time(log: &[LogEntry], team: Team) -> (r: Option<Option<Vec<PlayingTime>>>)
    ensures
        r is None <==> !playing_time_fits(log@, team),
        r matches Some(result) ==> match playing_time_of(log@, team) {
            None => result is None,
            Some(totals) => result matches Some(times) && totals_view(times@) == totals,
        },
{
    // Which substitutions the team has, and whether they are all timed.
    let mut any = false;
    let mut untimed = false;
    let mut end: Option<i64> = None;
    let mut i: usize = 0;
    while i < log.len()
        invariant
            0 <= i <= log@.len(),
            any == (team_substitutions(log@.take(i as int), team).len() > 0),
            untimed == some_untimed(team_substitutions(log@.take(i as int), team)),
            end == latest_timestamp(log@.take(i as int)),
        decreases log@.len() - i,
    {
        let ghost before = team_substitutions(log@.take(i as int), team);
        assert(log@.take(i + 1).drop_last() == log@.take(i as int));
        let entry = &log[i];
        if let LogEntry::Substitution(substitution) = entry {
            if substitution.team == team {
                any = true;
                if substitution.timestamp_ms.is_none() {
                    assert(before.push(*substitution)[before.len() as int] == *substitution);
                    untimed = true;
                } else {
                    let ghost after = before.push(*substitution);
                    assert(some_untimed(after) == some_untimed(before)) by {
                        if some_untimed(before) {
                            let k = choose|k: int| 0 <= k < before.len() && (#[trigger] before[k]).timestamp_ms is None;
                            assert(after[k] == before[k]);
                        }
                        if some_untimed(after) {
                            let k = choose|k: int| 0 <= k < after.len() && (#[trigger] after[k]).timestamp_ms is None;
                            assert(before[k] == after[k]);
                        }
                    }
                }
            }
        }
        match entry.timestamp_ms() {
            Some(t) => {
                end = match end {
                    Some(m) => if m >= t { Some(m) } else { Some(t) },
                    None => Some(t),
                };
            },
            None => {},
        }
        i = i + 1;
    }
    assert(log@.take(log@.len() as int) == log@);
    // No roster yet means nobody to time: that is knowledge, not absence of
    // it, so it is an empty list rather than None.
    if !any {
        let empty: Vec<PlayingTime> = Vec::new();
        assert(totals_view(empty@) =~= Seq::<(String, int)>::empty());
        return Some(Some(empty));
    }
    if untimed {
        return Some(None);
    }
    let ghost subs = team_substitutions(log@, team);
    let ghost full = replay_stints(subs);

    // Replay the substitutions.
    let mut on_court: Vec<(CourtPosition, String, i64)> = Vec::new();
    let mut totals: Vec<PlayingTime> = Vec::new();
    let mut i: usize = 0;
    while i < log.len()
        invariant
            0 <= i <= log@.len(),
            subs == team_substitutions(log@, team),
            subs.len() > 0,
            !some_untimed(subs),
            full == replay_stints(subs),
            ({
                let state = replay_stints(team_substitutions(log@.take(i as int), team));
                &&& on_court_view(on_court@) == state.on_court
                &&& totals_view(totals@) == state.totals
                &&& state.fits
            }),
        decreases log@.len() - i,
    {
        let ghost prefix = log@.take(i as int);
        let ghost before = team_substitutions(prefix, team);
        assert(log@.take(i + 1).drop_last() == prefix);
        proof {
            lemma_team_substitutions_prefix(log@, team, i + 1);
        }
        if let LogEntry::Substitution(substitution) = &log[i] {
            if substitution.team == team {
                let ghost after = before.push(*substitution);
                assert(after == subs.take(after.len() as int));
                assert(after.last() == *substitution);
                assert(after.drop_last() == before);
                assert(subs[before.len() as int] == *substitution);
                let now = match substitution.timestamp_ms {
                    Some(t) => t,
                    None => {
                        assert(some_untimed(subs));
                        0
                    },
                };
                let ghost state = replay_stints(before);
                let ghost pred = |slot: (CourtPosition, String, int)| slot.0 == substitution.position;
                proof {
                    lemma_first_index(state.on_court, pred);
                }
                let mut k: usize = 0;
                let mut found = false;
                while k < on_court.len()
                    invariant_except_break
                        !found,
                    invariant
                        0 <= k <= on_court@.len(),
                        on_court_view(on_court@) == state.on_court,
                        pred == (|slot: (CourtPosition, String, int)| slot.0 == substitution.position),
                        forall|j: int| 0 <= j < k ==> !pred(#[trigger] state.on_court[j]),
                    ensures
                        found ==> 0 <= k < on_court@.len() && pred(state.on_court[k as int]),
                        !found ==> k == on_court@.len(),
                    decreases on_court@.len() - k,
                {
                    assert(state.on_court[k as int] == (on_court@[k as int].0, on_court@[k as int].1, on_court@[k as int].2 as int));
                    if on_court[k].0 == substitution.position {
                        found = true;
                        break;
                    }
                    k = k + 1;
                }
                proof {
                    if found {
                        lemma_first_index_found(state.on_court, pred, k as int);
                    } else {
                        lemma_first_index(state.on_court, pred);
                        if first_index(state.on_court, pred) >= 0 {
                            let f = first_index(state.on_court, pred);
                            assert(!pred(state.on_court[f]));
                        }
                    }
                }
                if found {
                    proof {
                        lemma_credit_fits(state.totals, state.fits, state.on_court[k as int].1, state.on_court[k as int].2, now as int);
                    }
                    if !credit_stint(&mut totals, &on_court[k].1, on_court[k].2, now) {
                        proof {
                            lemma_replay_fits(subs, after.len() as int);
                            lemma_close_stints_fits(full.on_court, full.totals, full.fits, latest_timestamp(log@).unwrap() as int, 0);
                        }
                        return None;
                    }
                    let ghost old_on_court = on_court@;
                    on_court.set(k, (substitution.position, substitution.player.clone(), now));
                    assert(on_court_view(on_court@) =~= on_court_view(old_on_court).update(k as int, (substitution.position, substitution.player, now as int)));
                } else {
                    let ghost old_on_court = on_court@;
                    on_court.push((substitution.position, substitution.player.clone(), now));
                    assert(on_court_view(on_court@) =~= on_court_view(old_on_court).push((substitution.position, substitution.player, now as int)));
                }
                enroll_player(&mut totals, &substitution.player);
            }
        }
        i = i + 1;
    }
    assert(log@.take(log@.len() as int) == log@);

    // Everyone still on court is credited up to the end.
    let end_ms = match end {
        Some(t) => t,
        None => {
            proof {
                lemma_latest_timestamp_some(log@, team, 0);
            }
            0
        },
    };
    let ghost final_court = on_court_view(on_court@);
    assert(final_court.take(0) =~= Seq::<(CourtPosition, String, int)>::empty());
    let mut j: usize = 0;
    while j < on_court.len()
        invariant
            0 <= j <= on_court@.len(),
            subs == team_substitutions(log@, team),
            subs.len() > 0,
            !some_untimed(subs),
            full == replay_stints(subs),
            end_ms == latest_timestamp(log@).unwrap(),
            final_court == full.on_court,
            final_court == on_court_view(on_court@),
            close_stints(final_court.take(j as int), full.totals, full.fits, end_ms as int) == (totals_view(totals@), true),
        decreases on_court@.len() - j,
    {
        proof {
            assert(final_court.take(j + 1).drop_last() == final_court.take(j as int));
            lemma_credit_fits(totals_view(totals@), true, final_court[j as int].1, final_court[j as int].2, end_ms as int);
        }
        if !credit_stint(&mut totals, &on_court[j].1, on_court[j].2, end_ms) {
            proof {
                lemma_close_stints_fits(final_court, full.totals, full.fits, end_ms as int, j + 1);
            }
            return None;
        }
        j = j + 1;
    }
    assert(final_court.take(on_court@.len() as int) == final_court);
    Some(Some(totals))
}

/// A log with a timestamped substitution has a latest timestamp.
proof fn lemma_latest_timestamp_some(log: Seq<LogEntry>, team: Team, k: int)
    requires
        0 <= k < team_substitutions(log, team).len(),
        team_substitutions(log, team)[k].timestamp_ms is Some,
    ensures
        latest_timestamp(log) is Some,
    decreases log.len(),
{
    let before = team_substitutions(log.drop_last(), team);
    if k < before.len() {
        assert(team_substitutions(log, team)[k] == before[k]);
        lemma_latest_timestamp_some(log.drop_last(), team, k);
    }
}
/// Names that are pairwise different as text.
pub open spec fn distinct_names(totals: Seq<(String, int)>) -> bool {
    forall|a: int, b: int| 0 <= a < b < totals.len() ==> (#[trigger] totals[a]).0@ != (#[trigger] totals[b]).0@
}

proof fn lemma_credit_distinct(totals: Seq<(String, int)>, fits: bool, player: String, on: int, off: int)
    requires
        distinct_names(totals),
    ensures
        distinct_names(credit(totals, fits, player, on, off).0),
{
    lemma_first_index(totals, |t: (String, int)| t.0@ == player@);
    let result = credit(totals, fits, player, on, off).0;
    assert forall|a: int, b: int| 0 <= a < b < result.len() implies (#[trigger] result[a]).0@ != (#[trigger] result[b]).0@ by {
        if b == totals.len() {
            assert(!((|t: (String, int)| t.0@ == player@)(totals[a])));
        }
    }
}

proof fn lemma_enroll_distinct(totals: Seq<(String, int)>, player: String)
    requires
        distinct_names(totals),
    ensures
        distinct_names(enroll(totals, player)),
{
    lemma_first_index(totals, |t: (String, int)| t.0@ == player@);
    let result = enroll(totals, player);
    assert forall|a: int, b: int| 0 <= a < b < result.len() implies (#[trigger] result[a]).0@ != (#[trigger] result[b]).0@ by {
        if b == totals.len() {
            assert(!((|t: (String, int)| t.0@ == player@)(totals[a])));
        }
    }
}

proof fn lemma_replay_distinct(subs: Seq<Substitution>)
    ensures
        distinct_names(replay_stints(subs).totals),
    decreases subs.len(),
{
    if subs.len() > 0 {
        lemma_replay_distinct(subs.drop_last());
        let before = replay_stints(subs.drop_last());
        let substitution = subs.last();
        let now = substitution.timestamp_ms.unwrap() as int;
        let k = first_index(before.on_court, |slot: (CourtPosition, String, int)| slot.0 == substitution.position);
        if k >= 0 {
            lemma_credit_distinct(before.totals, before.fits, before.on_court[k].1, before.on_court[k].2, now);
            let totals = credit(before.totals, before.fits, before.on_court[k].1, before.on_court[k].2, now).0;
            lemma_enroll_distinct(totals, substitution.player);
        } else {
            lemma_enroll_distinct(before.totals, substitution.player);
        }
    }
}

proof fn lemma_close_distinct(on_court: Seq<(CourtPosition, String, int)>, totals: Seq<(String, int)>, fits: bool, end: int)
    requires
        distinct_names(totals),
    ensures
        distinct_names(close_stints(on_court, totals, fits, end).0),
    decreases on_court.len(),
{
    if on_court.len() > 0 {
        lemma_close_distinct(on_court.drop_last(), totals, fits, end);
        let (t, f) = close_stints(on_court.drop_last(), totals, fits, end);
        let (_, player, on) = on_court.last();
        lemma_credit_distinct(t, f, player, on, end);
    }
}

/// Whether a total is listed for the player named `name`.
pub open spec fn listed(totals: Seq<(String, int)>, name: Seq<char>) -> bool {
    exists|k: int| 0 <= k < totals.len() && (#[trigger] totals[k]).0@ == name
}

/// Whether one of `team`'s substitutions in `log` puts the player named
/// `name` on court.
pub open spec fn substituted_on(log: Seq<LogEntry>, team: Team, name: Seq<char>) -> bool {
    exists|j: int|
        0 <= j < team_substitutions(log, team).len() && (#[trigger] team_substitutions(log, team)[j]).player@
            == name
}

/// A substitution of `team` at entry `i` is among the team's substitutions.
pub(crate) proof fn lemma_substitution_is_listed(log: Seq<LogEntry>, team: Team, i: int)
    requires
        0 <= i < log.len(),
        log[i] matches LogEntry::Substitution(s) && s.team == team,
    ensures
        substituted_on(log, team, log[i]->Substitution_0.player@),
{
    let s = log[i]->Substitution_0;
    assert(log.take(i + 1).drop_last() == log.take(i));
    assert(log.take(i + 1).last() == LogEntry::Substitution(s));
    lemma_team_substitutions_prefix(log, team, i + 1);
    let short = team_substitutions(log.take(i + 1), team);
    let m = short.len() - 1;
    assert(short[m] == s);
    assert(team_substitutions(log, team)[m] == short[m]);
}

/// Whoever a team's substitutions put on court within a prefix of the log,
/// they put on court in the whole log.
pub(crate) proof fn lemma_substituted_on_prefix(log: Seq<LogEntry>, team: Team, i: int, name: Seq<char>)
    requires
        0 <= i <= log.len(),
        substituted_on(log.take(i), team, name),
    ensures
        substituted_on(log, team, name),
{
    lemma_team_substitutions_prefix(log, team, i);
    let short = team_substitutions(log.take(i), team);
    let j = choose|j: int| 0 <= j < short.len() && (#[trigger] short[j]).player@ == name;
    assert(team_substitutions(log, team)[j] == short[j]);
}

/// Whoever occupies a position was put there by a substitution of the team.
pub(crate) proof fn lemma_occupant_substituted(log: Seq<LogEntry>, team: Team, position: CourtPosition)
    ensures
        roster_of(log, team).occupant(position) matches Some(player) ==> substituted_on(log, team, player@),
    decreases log.len(),
{
    if log.len() > 0 {
        let prefix = log.drop_last();
        lemma_occupant_substituted(prefix, team, position);
        let before = team_substitutions(prefix, team);
        if let Some(player) = roster_of(log, team).occupant(position) {
            match log.last() {
                LogEntry::Substitution(s) => {
                    if s.team == team {
                        let after = team_substitutions(log, team);
                        assert(after == before.push(s));
                        if s.position == position {
                            assert(after[before.len() as int] == s);
                        } else {
                            let j = choose|j: int| 0 <= j < before.len() && (#[trigger] before[j]).player@ == player@;
                            assert(after[j] == before[j]);
                        }
                    }
                },
                _ => {},
            }
        }
    }
}

proof fn lemma_credit_keeps_listed(totals: Seq<(String, int)>, fits: bool, player: String, on: int, off: int, name: Seq<char>)
    requires
        listed(totals, name),
    ensures
        listed(credit(totals, fits, player, on, off).0, name),
{
    lemma_first_index(totals, |t: (String, int)| t.0@ == player@);
    let after = credit(totals, fits, player, on, off).0;
    let k = choose|k: int| 0 <= k < totals.len() && (#[trigger] totals[k]).0@ == name;
    assert(after[k].0 == totals[k].0);
    assert(after[k].0@ == name);
}

proof fn lemma_enroll_lists(totals: Seq<(String, int)>, player: String, name: Seq<char>)
    ensures
        listed(enroll(totals, player), player@),
        listed(totals, name) ==> listed(enroll(totals, player), name),
{
    let pred = |t: (String, int)| t.0@ == player@;
    lemma_first_index(totals, pred);
    let after = enroll(totals, player);
    if first_index(totals, pred) >= 0 {
        let f = first_index(totals, pred);
        assert(pred(totals[f]));
        assert(after[f].0@ == player@);
    } else {
        assert(after[totals.len() as int].0@ == player@);
        if listed(totals, name) {
            let k = choose|k: int| 0 <= k < totals.len() && (#[trigger] totals[k]).0@ == name;
            assert(after[k] == totals[k]);
        }
    }
}

/// Everyone a replay puts on court has a total.
proof fn lemma_replay_lists(subs: Seq<Substitution>, j: int)
    requires
        0 <= j < subs.len(),
    ensures
        listed(replay_stints(subs).totals, subs[j].player@),
    decreases subs.len(),
{
    let before = replay_stints(subs.drop_last());
    let substitution = subs.last();
    let now = substitution.timestamp_ms.unwrap() as int;
    let k = first_index(before.on_court, |slot: (CourtPosition, String, int)| slot.0 == substitution.position);
    let credited = if k >= 0 {
        credit(before.totals, before.fits, before.on_court[k].1, before.on_court[k].2, now).0
    } else {
        before.totals
    };
    lemma_enroll_lists(credited, substitution.player, subs[j].player@);
    if j < subs.len() - 1 {
        lemma_replay_lists(subs.drop_last(), j);
        assert(subs.drop_last()[j] == subs[j]);
        if k >= 0 {
            lemma_credit_keeps_listed(before.totals, before.fits, before.on_court[k].1, before.on_court[k].2, now, subs[j].player@);
        }
    }
}

proof fn lemma_close_keeps_listed(on_court: Seq<(CourtPosition, String, int)>, totals: Seq<(String, int)>, fits: bool, end: int, name: Seq<char>)
    requires
        listed(totals, name),
    ensures
        listed(close_stints(on_court, totals, fits, end).0, name),
    decreases on_court.len(),
{
    if on_court.len() > 0 {
        lemma_close_keeps_listed(on_court.drop_last(), totals, fits, end, name);
        let (t, f) = close_stints(on_court.drop_last(), totals, fits, end);
        let (_, player, on) = on_court.last();
        lemma_credit_keeps_listed(t, f, player, on, end, name);
    }
}

/// When a team's playing time is available, everyone its substitutions put
/// on court has a total.
pub proof fn lemma_substituted_players_have_totals(log: Seq<LogEntry>, team: Team, name: Seq<char>)
    requires
        substituted_on(log, team, name),
        playing_time_of(log, team) is Some,
    ensures
        listed(playing_time_of(log, team)->0, name),
{
    let subs = team_substitutions(log, team);
    let j = choose|j: int| 0 <= j < subs.len() && (#[trigger] subs[j]).player@ == name;
    lemma_replay_lists(subs, j);
    let stints = replay_stints(subs);
    lemma_close_keeps_listed(stints.on_court, stints.totals, stints.fits, latest_timestamp(log).unwrap() as int, name);
}

/// Each player appears at most once in a team's playing time: stints in
/// several positions accumulate into one total.
pub proof fn lemma_playing_time_lists_each_player_once(log: Seq<LogEntry>, team: Team)
    ensures
        playing_time_of(log, team) matches Some(totals) ==> distinct_names(totals),
{
    let subs = team_substitutions(log, team);
    if subs.len() > 0 && !some_untimed(subs) {
        lemma_replay_distinct(subs);
        let stints = replay_stints(subs);
        lemma_close_distinct(stints.on_court, stints.totals, stints.fits, latest_timestamp(log).unwrap() as int);
    }
}

/// Whether `entry` is a substitution of `team` into `position`.
pub open spec fn substitutes_into(entry: LogEntry, team: Team, position: CourtPosition) -> bool {
    entry matches LogEntry::Substitution(s) && s.team == team && s.position == position
}

/// Only substitutions change a roster: appending any other entry (a coded
/// event or a quarter break) leaves each team's roster as it was.
pub proof fn lemma_only_substitutions_change_rosters(log: Seq<LogEntry>, entry: LogEntry, team: Team)
    requires
        !(entry is Substitution),
    ensures
        roster_of(log.push(entry), team) == roster_of(log, team),
{
    assert(log.push(entry).drop_last() == log);
}

/// A position is held by the player of the team's latest substitution into
/// it, and is empty when the team has made none there; quarter breaks and
/// events in between change nothing.
pub proof fn lemma_occupant_is_latest_substitution(log: Seq<LogEntry>, team: Team, position: CourtPosition)
    ensures
        match roster_of(log, team).occupant(position) {
            Some(player) => exists|j: int|
                0 <= j < log.len() && substitutes_into(#[trigger] log[j], team, position)
                    && log[j]->Substitution_0.player == player && forall|m: int|
                    j < m < log.len() ==> !substitutes_into(#[trigger] log[m], team, position),
            None => forall|j: int| 0 <= j < log.len() ==> !substitutes_into(#[trigger] log[j], team, position),
        },
    decreases log.len(),
{
    if log.len() > 0 {
        let prefix = log.drop_last();
        let index = log.len() - 1;
        lemma_occupant_is_latest_substitution(prefix, team, position);
        assert forall|i: int| 0 <= i < prefix.len() implies log[i] == prefix[i] by {}
        assert(log[index] == log.last());
        if substitutes_into(log.last(), team, position) {
            assert(roster_of(log, team).occupant(position) == Some(log.last()->Substitution_0.player));
        } else {
            assert(roster_of(log, team).occupant(position) == roster_of(prefix, team).occupant(position));
            match roster_of(prefix, team).occupant(position) {
                Some(player) => {
                    let j = choose|j: int|
                        0 <= j < prefix.len() && substitutes_into(#[trigger] prefix[j], team, position)
                            && prefix[j]->Substitution_0.player == player && forall|m: int|
                            j < m < prefix.len() ==> !substitutes_into(#[trigger] prefix[m], team, position);
                    assert(substitutes_into(log[j], team, position));
                    assert forall|m: int| j < m < log.len() implies !substitutes_into(#[trigger] log[m], team, position) by {
                        if m < index {
                            assert(!substitutes_into(prefix[m], team, position));
                        }
                    }
                },
                None => {
                    assert forall|j: int| 0 <= j < log.len() implies !substitutes_into(#[trigger] log[j], team, position) by {
                        if j < index {
                            assert(!substitutes_into(prefix[j], team, position));
                        }
                    }
                },
            }
        }
    }
}

/// A substitution puts its player in its position for its team, leaving the
/// team's other positions and the other team's roster as they were.
pub proof fn lemma_substitution_replaces_occupant(log: Seq<LogEntry>, substitution: Substitution, position: CourtPosition)
    ensures
        ({
            let after = log.push(LogEntry::Substitution(substitution));
            &&& roster_of(after, substitution.team).occupant(substitution.position) == Some(substitution.player)
            &&& position != substitution.position ==> roster_of(after, substitution.team).occupant(position)
                == roster_of(log, substitution.team).occupant(position)
            &&& roster_of(after, substitution.team.other()) == roster_of(log, substitution.team.other())
        }),
{
    let after = log.push(LogEntry::Substitution(substitution));
    assert(after.drop_last() == log);
}

/// Playing time is withheld exactly when the team has a substitution
/// without a timestamp, and is an empty list (not withheld) when the team
/// has no substitutions at all.
pub proof fn lemma_playing_time_availability(log: Seq<LogEntry>, team: Team)
    ensures
        playing_time_of(log, team) is None <==> some_untimed(team_substitutions(log, team)),
        team_substitutions(log, team).len() == 0 ==> playing_time_of(log, team) == Some(Seq::<(String, int)>::empty()),
{
}

} // verus!

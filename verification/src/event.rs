//! The coded event model: the only stored truth for a match.
//!
//! The model is two-team-native: every event carries a [`Team`], and
//! opposition goals are ordinary Goal events attributed to the other team.
//!
//! Invalid events are unrepresentable: each [`Action`] variant that is only
//! legal for some positions carries a position-subset enum rather than a bare
//! [`Position`], so an illegal combination (a shot by WD, a feed by TEAM)
//! cannot be constructed.

use vstd::prelude::*;

use crate::taxonomy::ActionKind;

verus! {

/// One of the two teams in a match, identified positionally.
#[derive(Debug, Clone, Copy, PartialEq, Eq, Structural)]
pub enum Team {
    A,
    B,
}

impl Team {
    /// The opposing team.
    #[verifier::allow_in_spec]
    pub fn other(self) -> Team
        returns
            (match self {
                Team::A => Team::B,
                Team::B => Team::A,
            }),
    {
        match self {
            Team::A => Team::B,
            Team::B => Team::A,
        }
    }
}

/// The seven on-court netball positions, plus TEAM for events not
/// attributable to an individual.
#[derive(Debug, Clone, Copy, PartialEq, Eq, Structural)]
pub enum Position {
    GS,
    GA,
    WA,
    C,
    WD,
    GD,
    GK,
    Team,
}

impl Position {
    /// Every position, in shirt order (GS first, TEAM last).
    pub const ALL: [Position; 8] = [
        Position::GS,
        Position::GA,
        Position::WA,
        Position::C,
        Position::WD,
        Position::GD,
        Position::GK,
        Position::Team,
    ];
}

/// Positions that may receive a centre pass: those allowed in the centre
/// third at a centre pass. C takes the pass, GS and GK may not enter the
/// centre third, and a receive is always attributable, so TEAM is excluded.
#[derive(Debug, Clone, Copy, PartialEq, Eq, Structural)]
pub enum CentrePassReceivePosition {
    GA,
    WA,
    WD,
    GD,
}

/// Positions that can pass from outside the goal circle to a shooter
/// inside it. WD, GD and GK may not enter the attacking goal third; TEAM is
/// excluded because a feed is always attributable to the passer.
#[derive(Debug, Clone, Copy, PartialEq, Eq, Structural)]
pub enum FeedPosition {
    GS,
    GA,
    WA,
    C,
}

/// Shots may only be taken by GS or GA. TEAM covers a goal whose shooter is
/// not coded (the one-tap opposition goal).
#[derive(Debug, Clone, Copy, PartialEq, Eq, Structural)]
pub enum GoalPosition {
    GS,
    GA,
    Team,
}

/// Rebounds are regathered under the post by the shooters (GS/GA,
/// attacking) or their markers (GD/GK, defensive); TEAM would make the
/// classification underivable.
#[derive(Debug, Clone, Copy, PartialEq, Eq, Structural)]
pub enum ReboundPosition {
    GS,
    GA,
    GD,
    GK,
}

/// The seven on-court positions a player can occupy (every [`Position`]
/// but TEAM): the positions a substitution can fill.
#[derive(Debug, Clone, Copy, PartialEq, Eq, Structural)]
pub enum CourtPosition {
    GS,
    GA,
    WA,
    C,
    WD,
    GD,
    GK,
}

impl CentrePassReceivePosition {
    /// The same position as a [`Position`].
    pub open spec fn widen(self) -> Position {
        match self {
            CentrePassReceivePosition::GA => Position::GA,
            CentrePassReceivePosition::WA => Position::WA,
            CentrePassReceivePosition::WD => Position::WD,
            CentrePassReceivePosition::GD => Position::GD,
        }
    }

    /// The narrowing of `position` to this subset, if it belongs to it.
    pub open spec fn narrow(position: Position) -> Option<Self> {
        match position {
            Position::GA => Some(CentrePassReceivePosition::GA),
            Position::WA => Some(CentrePassReceivePosition::WA),
            Position::WD => Some(CentrePassReceivePosition::WD),
            Position::GD => Some(CentrePassReceivePosition::GD),
            _ => None,
        }
    }

    /// `position` narrowed to this subset, or `None` when it is not in it.
    pub fn from_position(position: Position) -> (r: Option<Self>)
        ensures
            r == Self::narrow(position),
    {
        match position {
            Position::GA => Some(CentrePassReceivePosition::GA),
            Position::WA => Some(CentrePassReceivePosition::WA),
            Position::WD => Some(CentrePassReceivePosition::WD),
            Position::GD => Some(CentrePassReceivePosition::GD),
            _ => None,
        }
    }
}

impl FeedPosition {
    /// The same position as a [`Position`].
    pub open spec fn widen(self) -> Position {
        match self {
            FeedPosition::GS => Position::GS,
            FeedPosition::GA => Position::GA,
            FeedPosition::WA => Position::WA,
            FeedPosition::C => Position::C,
        }
    }

    /// The narrowing of `position` to this subset, if it belongs to it.
    pub open spec fn narrow(position: Position) -> Option<Self> {
        match position {
            Position::GS => Some(FeedPosition::GS),
            Position::GA => Some(FeedPosition::GA),
            Position::WA => Some(FeedPosition::WA),
            Position::C => Some(FeedPosition::C),
            _ => None,
        }
    }

    /// `position` narrowed to this subset, or `None` when it is not in it.
    pub fn from_position(position: Position) -> (r: Option<Self>)
        ensures
            r == Self::narrow(position),
    {
        match position {
            Position::GS => Some(FeedPosition::GS),
            Position::GA => Some(FeedPosition::GA),
            Position::WA => Some(FeedPosition::WA),
            Position::C => Some(FeedPosition::C),
            _ => None,
        }
    }
}

impl GoalPosition {
    /// The same position as a [`Position`].
    pub open spec fn widen(self) -> Position {
        match self {
            GoalPosition::GS => Position::GS,
            GoalPosition::GA => Position::GA,
            GoalPosition::Team => Position::Team,
        }
    }

    /// The narrowing of `position` to this subset, if it belongs to it.
    pub open spec fn narrow(position: Position) -> Option<Self> {
        match position {
            Position::GS => Some(GoalPosition::GS),
            Position::GA => Some(GoalPosition::GA),
            Position::Team => Some(GoalPosition::Team),
            _ => None,
        }
    }

    /// `position` narrowed to this subset, or `None` when it is not in it.
    pub fn from_position(position: Position) -> (r: Option<Self>)
        ensures
            r == Self::narrow(position),
    {
        match position {
            Position::GS => Some(GoalPosition::GS),
            Position::GA => Some(GoalPosition::GA),
            Position::Team => Some(GoalPosition::Team),
            _ => None,
        }
    }
}

impl ReboundPosition {
    /// The same position as a [`Position`].
    pub open spec fn widen(self) -> Position {
        match self {
            ReboundPosition::GS => Position::GS,
            ReboundPosition::GA => Position::GA,
            ReboundPosition::GD => Position::GD,
            ReboundPosition::GK => Position::GK,
        }
    }

    /// The narrowing of `position` to this subset, if it belongs to it.
    pub open spec fn narrow(position: Position) -> Option<Self> {
        match position {
            Position::GS => Some(ReboundPosition::GS),
            Position::GA => Some(ReboundPosition::GA),
            Position::GD => Some(ReboundPosition::GD),
            Position::GK => Some(ReboundPosition::GK),
            _ => None,
        }
    }

    /// `position` narrowed to this subset, or `None` when it is not in it.
    pub fn from_position(position: Position) -> (r: Option<Self>)
        ensures
            r == Self::narrow(position),
    {
        match position {
            Position::GS => Some(ReboundPosition::GS),
            Position::GA => Some(ReboundPosition::GA),
            Position::GD => Some(ReboundPosition::GD),
            Position::GK => Some(ReboundPosition::GK),
            _ => None,
        }
    }
}

impl CourtPosition {
    /// The same position as a [`Position`].
    pub open spec fn widen(self) -> Position {
        match self {
            CourtPosition::GS => Position::GS,
            CourtPosition::GA => Position::GA,
            CourtPosition::WA => Position::WA,
            CourtPosition::C => Position::C,
            CourtPosition::WD => Position::WD,
            CourtPosition::GD => Position::GD,
            CourtPosition::GK => Position::GK,
        }
    }

    /// The narrowing of `position` to an on-court position (TEAM has none).
    pub open spec fn narrow(position: Position) -> Option<Self> {
        match position {
            Position::GS => Some(CourtPosition::GS),
            Position::GA => Some(CourtPosition::GA),
            Position::WA => Some(CourtPosition::WA),
            Position::C => Some(CourtPosition::C),
            Position::WD => Some(CourtPosition::WD),
            Position::GD => Some(CourtPosition::GD),
            Position::GK => Some(CourtPosition::GK),
            Position::Team => None,
        }
    }

    /// `position` as an on-court position, or `None` for TEAM.
    pub fn from_position(position: Position) -> (r: Option<Self>)
        ensures
            r == Self::narrow(position),
    {
        match position {
            Position::GS => Some(CourtPosition::GS),
            Position::GA => Some(CourtPosition::GA),
            Position::WA => Some(CourtPosition::WA),
            Position::C => Some(CourtPosition::C),
            Position::WD => Some(CourtPosition::WD),
            Position::GD => Some(CourtPosition::GD),
            Position::GK => Some(CourtPosition::GK),
            Position::Team => None,
        }
    }
}

impl From<CentrePassReceivePosition> for Position {
    fn from(position: CentrePassReceivePosition) -> (r: Position) {
        match position {
            CentrePassReceivePosition::GA => Position::GA,
            CentrePassReceivePosition::WA => Position::WA,
            CentrePassReceivePosition::WD => Position::WD,
            CentrePassReceivePosition::GD => Position::GD,
        }
    }
}

impl vstd::std_specs::convert::FromSpecImpl<CentrePassReceivePosition> for Position {
    open spec fn obeys_from_spec() -> bool {
        true
    }

    open spec fn from_spec(v: CentrePassReceivePosition) -> Position {
        v.widen()
    }
}

impl From<FeedPosition> for Position {
    fn from(position: FeedPosition) -> (r: Position) {
        match position {
            FeedPosition::GS => Position::GS,
            FeedPosition::GA => Position::GA,
            FeedPosition::WA => Position::WA,
            FeedPosition::C => Position::C,
        }
    }
}

impl vstd::std_specs::convert::FromSpecImpl<FeedPosition> for Position {
    open spec fn obeys_from_spec() -> bool {
        true
    }

    open spec fn from_spec(v: FeedPosition) -> Position {
        v.widen()
    }
}

impl From<GoalPosition> for Position {
    fn from(position: GoalPosition) -> (r: Position) {
        match position {
            GoalPosition::GS => Position::GS,
            GoalPosition::GA => Position::GA,
            GoalPosition::Team => Position::Team,
        }
    }
}

impl vstd::std_specs::convert::FromSpecImpl<GoalPosition> for Position {
    open spec fn obeys_from_spec() -> bool {
        true
    }

    open spec fn from_spec(v: GoalPosition) -> Position {
        v.widen()
    }
}

impl From<ReboundPosition> for Position {
    fn from(position: ReboundPosition) -> (r: Position) {
        match position {
            ReboundPosition::GS => Position::GS,
            ReboundPosition::GA => Position::GA,
            ReboundPosition::GD => Position::GD,
            ReboundPosition::GK => Position::GK,
        }
    }
}

impl vstd::std_specs::convert::FromSpecImpl<ReboundPosition> for Position {
    open spec fn obeys_from_spec() -> bool {
        true
    }

    open spec fn from_spec(v: ReboundPosition) -> Position {
        v.widen()
    }
}

impl From<CourtPosition> for Position {
    fn from(position: CourtPosition) -> (r: Position) {
        match position {
            CourtPosition::GS => Position::GS,
            CourtPosition::GA => Position::GA,
            CourtPosition::WA => Position::WA,
            CourtPosition::C => Position::C,
            CourtPosition::WD => Position::WD,
            CourtPosition::GD => Position::GD,
            CourtPosition::GK => Position::GK,
        }
    }
}

impl vstd::std_specs::convert::FromSpecImpl<CourtPosition> for Position {
    open spec fn obeys_from_spec() -> bool {
        true
    }

    open spec fn from_spec(v: CourtPosition) -> Position {
        v.widen()
    }
}

/// Optional detail on how possession was won, coded when time pressure
/// allows.
#[derive(Debug, Clone, Copy, PartialEq, Eq, Structural)]
pub enum GainSubType {
    Interception,
    Deflection,
    PickUp,
}

/// A coded action. Variants carry their own position (restricted to the
/// legal subset) and, where an unsuccessful attempt is meaningful, a `failed`
/// flag: a Goal with `failed: true` is a missed shot, a failed Feed an
/// incomplete one. Turnovers and infringements are already failures and a
/// Rebound is by definition a successful regather, so those carry no flag.
#[derive(Debug, Clone, Copy, PartialEq, Eq, Structural)]
#[allow(inconsistent_fields)]
pub enum Action {
    CentrePassReceive { position: CentrePassReceivePosition, failed: bool },
    Feed { position: FeedPosition, failed: bool },
    Goal { position: GoalPosition, failed: bool },
    Gain { position: Position, sub_type: Option<GainSubType> },
    UnforcedTurnover { position: Position },
    Infringement { position: Position },
    Rebound { position: ReboundPosition },
}

impl Action {
    /// This action's kind, for keying into the taxonomy table.
    #[verifier::allow_in_spec]
    pub fn kind(&self) -> ActionKind
        returns
            (match *self {
                Action::CentrePassReceive { .. } => ActionKind::CentrePassReceive,
                Action::Feed { .. } => ActionKind::Feed,
                Action::Goal { .. } => ActionKind::Goal,
                Action::Gain { .. } => ActionKind::Gain,
                Action::UnforcedTurnover { .. } => ActionKind::UnforcedTurnover,
                Action::Infringement { .. } => ActionKind::Infringement,
                Action::Rebound { .. } => ActionKind::Rebound,
            }),
    {
        match self {
            Action::CentrePassReceive { .. } => ActionKind::CentrePassReceive,
            Action::Feed { .. } => ActionKind::Feed,
            Action::Goal { .. } => ActionKind::Goal,
            Action::Gain { .. } => ActionKind::Gain,
            Action::UnforcedTurnover { .. } => ActionKind::UnforcedTurnover,
            Action::Infringement { .. } => ActionKind::Infringement,
            Action::Rebound { .. } => ActionKind::Rebound,
        }
    }

    /// The position this action is attributed to, widened to [`Position`].
    #[verifier::allow_in_spec]
    pub fn position(&self) -> Position
        returns
            (match *self {
                Action::CentrePassReceive { position, .. } => position.widen(),
                Action::Feed { position, .. } => position.widen(),
                Action::Goal { position, .. } => position.widen(),
                Action::Gain { position, .. } => position,
                Action::UnforcedTurnover { position } => position,
                Action::Infringement { position } => position,
                Action::Rebound { position } => position.widen(),
            }),
    {
        match *self {
            Action::CentrePassReceive { position, .. } => Position::from(position),
            Action::Feed { position, .. } => Position::from(position),
            Action::Goal { position, .. } => Position::from(position),
            Action::Gain { position, .. } => position,
            Action::UnforcedTurnover { position } => position,
            Action::Infringement { position } => position,
            Action::Rebound { position } => Position::from(position),
        }
    }

    /// Whether this action is a successful shot: a Goal without the Failed
    /// modifier.
    pub open spec fn is_goal(self) -> bool {
        self matches Action::Goal { failed: false, .. }
    }
}

/// One coded observation in a match's append-only event log.
#[derive(Debug, Clone, Copy, PartialEq, Eq, Structural)]
pub struct Event {
    pub team: Team,
    pub action: Action,
    /// Marks the event for later human review.
    pub flagged: bool,
    /// Wall-clock capture time, milliseconds since the Unix epoch; absent for
    /// entry paths with no clock (e.g. Shorthand imports).
    pub timestamp_ms: Option<i64>,
}

/// The end of a quarter, coded as a marker in the log.
#[derive(Debug, Clone, Copy, PartialEq, Eq, Structural)]
pub struct QuarterBreak {
    pub timestamp_ms: Option<i64>,
}

/// A change of which player occupies a position for a team, effective from
/// its point in the log.
#[derive(Debug, Clone, PartialEq, Eq)]
pub struct Substitution {
    pub team: Team,
    pub position: CourtPosition,
    pub player: String,
    pub timestamp_ms: Option<i64>,
}

/// One entry of a match's append-only log: a coded event, or a quarter or
/// substitution marker.
#[derive(Debug, Clone, PartialEq, Eq)]
pub enum LogEntry {
    Event(Event),
    QuarterBreak(QuarterBreak),
    Substitution(Substitution),
}

impl LogEntry {
    /// This entry's capture time, when it has one.
    #[verifier::allow_in_spec]
    pub fn timestamp_ms(&self) -> Option<i64>
        returns
            (match self {
                LogEntry::Event(event) => event.timestamp_ms,
                LogEntry::QuarterBreak(marker) => marker.timestamp_ms,
                LogEntry::Substitution(substitution) => substitution.timestamp_ms,
            }),
    {
        match self {
            LogEntry::Event(event) => event.timestamp_ms,
            LogEntry::QuarterBreak(marker) => marker.timestamp_ms,
            LogEntry::Substitution(substitution) => substitution.timestamp_ms,
        }
    }
}

/// Involution: the other team's other team is the team itself.
pub proof fn lemma_other_is_involutive(team: Team)
    ensures
        team.other().other() == team,
        team.other() != team,
{
}

/// Widening a narrowed position gives it back, and a position narrows to a
/// subset exactly when some member of the subset widens to it.
pub proof fn lemma_narrow_widen(position: Position)
    ensures
        CentrePassReceivePosition::narrow(position) matches Some(p) ==> p.widen() == position,
        FeedPosition::narrow(position) matches Some(p) ==> p.widen() == position,
        GoalPosition::narrow(position) matches Some(p) ==> p.widen() == position,
        ReboundPosition::narrow(position) matches Some(p) ==> p.widen() == position,
        CourtPosition::narrow(position) matches Some(p) ==> p.widen() == position,
        forall|p: CentrePassReceivePosition| #[trigger] p.widen() == position ==> CentrePassReceivePosition::narrow(position) == Some(p),
        forall|p: FeedPosition| #[trigger] p.widen() == position ==> FeedPosition::narrow(position) == Some(p),
        forall|p: GoalPosition| #[trigger] p.widen() == position ==> GoalPosition::narrow(position) == Some(p),
        forall|p: ReboundPosition| #[trigger] p.widen() == position ==> ReboundPosition::narrow(position) == Some(p),
        forall|p: CourtPosition| #[trigger] p.widen() == position ==> CourtPosition::narrow(position) == Some(p),
{
}

} // verus!

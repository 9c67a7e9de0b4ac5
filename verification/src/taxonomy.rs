//! The action taxonomy as runtime data: which actions exist, which positions
//! each is legal for, and which modifiers and sub-types apply. The type-level
//! truth lives in [`crate::event::Action`]'s position-subset enums; this module
//! restates it as data so a UI can drive its buttons from the engine.

use vstd::prelude::*;

use crate::event::{GainSubType, Position};

verus! {

/// An [`crate::event::Action`] variant without its payload.
#[derive(Debug, Clone, Copy, PartialEq, Eq, Structural)]
pub enum ActionKind {
    CentrePassReceive,
    Feed,
    Goal,
    Gain,
    UnforcedTurnover,
    Infringement,
    Rebound,
}

/// The positions each action may be coded for, as a sequence in shirt order.
pub open spec fn legal_position_seq(kind: ActionKind) -> Seq<Position> {
    match kind {
        ActionKind::CentrePassReceive => seq![Position::GA, Position::WA, Position::WD, Position::GD],
        ActionKind::Feed => seq![Position::GS, Position::GA, Position::WA, Position::C],
        ActionKind::Goal => seq![Position::GS, Position::GA, Position::Team],
        ActionKind::Gain | ActionKind::UnforcedTurnover | ActionKind::Infringement => all_positions(),
        ActionKind::Rebound => seq![Position::GS, Position::GA, Position::GD, Position::GK],
    }
}

/// Every position in shirt order.
pub open spec fn all_positions() -> Seq<Position> {
    seq![
        Position::GS,
        Position::GA,
        Position::WA,
        Position::C,
        Position::WD,
        Position::GD,
        Position::GK,
        Position::Team,
    ]
}

/// The optional sub-types each action can carry (only Gain has any).
pub open spec fn sub_type_seq(kind: ActionKind) -> Seq<GainSubType> {
    match kind {
        ActionKind::Gain => seq![GainSubType::Interception, GainSubType::Deflection, GainSubType::PickUp],
        _ => seq![],
    }
}

/// Every action kind in table order.
pub open spec fn all_kinds() -> Seq<ActionKind> {
    seq![
        ActionKind::CentrePassReceive,
        ActionKind::Feed,
        ActionKind::Goal,
        ActionKind::Gain,
        ActionKind::UnforcedTurnover,
        ActionKind::Infringement,
        ActionKind::Rebound,
    ]
}

impl ActionKind {
    /// Every action kind, in table order.
    pub const ALL: [ActionKind; 7] = [
        ActionKind::CentrePassReceive,
        ActionKind::Feed,
        ActionKind::Goal,
        ActionKind::Gain,
        ActionKind::UnforcedTurnover,
        ActionKind::Infringement,
        ActionKind::Rebound,
    ];

    /// The positions this action may be coded for: exactly the variants of
    /// the corresponding position-subset enum on [`crate::event::Action`].
    pub fn legal_positions(self) -> (r: Vec<Position>)
        ensures
            r@ == legal_position_seq(self),
    {
        match self {
            ActionKind::CentrePassReceive => vec![Position::GA, Position::WA, Position::WD, Position::GD],
            ActionKind::Feed => vec![Position::GS, Position::GA, Position::WA, Position::C],
            ActionKind::Goal => vec![Position::GS, Position::GA, Position::Team],
            ActionKind::Gain | ActionKind::UnforcedTurnover | ActionKind::Infringement => vec![
                Position::GS,
                Position::GA,
                Position::WA,
                Position::C,
                Position::WD,
                Position::GD,
                Position::GK,
                Position::Team,
            ],
            ActionKind::Rebound => vec![Position::GS, Position::GA, Position::GD, Position::GK],
        }
    }

    /// Whether the Failed modifier is meaningful for this action, i.e.
    /// whether its [`crate::event::Action`] variant carries a `failed` flag.
    #[verifier::allow_in_spec]
    pub fn can_fail(self) -> bool
        returns
            (match self {
                ActionKind::CentrePassReceive | ActionKind::Feed | ActionKind::Goal => true,
                _ => false,
            }),
    {
        match self {
            ActionKind::CentrePassReceive | ActionKind::Feed | ActionKind::Goal => true,
            _ => false,
        }
    }

    /// The optional sub-types this action can carry (only Gain has any).
    pub fn sub_types(self) -> (r: Vec<GainSubType>)
        ensures
            r@ == sub_type_seq(self),
    {
        match self {
            ActionKind::Gain => vec![GainSubType::Interception, GainSubType::Deflection, GainSubType::PickUp],
            _ => vec![],
        }
    }
}

/// One taxonomy row, in the boundary-friendly shape consumed by a UI.
#[derive(Debug, Clone, PartialEq, Eq)]
pub struct ActionKindInfo {
    pub kind: ActionKind,
    pub legal_positions: Vec<Position>,
    pub can_fail: bool,
    pub sub_types: Vec<GainSubType>,
}

/// The full action taxonomy, one row per [`ActionKind`] in table order.
pub fn action_taxonomy() -> (r: Vec<ActionKindInfo>)
    ensures
        r@.len() == all_kinds().len(),
        forall|i: int| 0 <= i < r@.len() ==> {
            &&& (#[trigger] r@[i]).kind == all_kinds()[i]
            &&& r@[i].legal_positions@ == legal_position_seq(all_kinds()[i])
            &&& r@[i].can_fail == all_kinds()[i].can_fail()
            &&& r@[i].sub_types@ == sub_type_seq(all_kinds()[i])
        },
{
    let kinds = [
        ActionKind::CentrePassReceive,
        ActionKind::Feed,
        ActionKind::Goal,
        ActionKind::Gain,
        ActionKind::UnforcedTurnover,
        ActionKind::Infringement,
        ActionKind::Rebound,
    ];
    assert(kinds@ == all_kinds());
    let mut rows: Vec<ActionKindInfo> = Vec::new();
    let mut i: usize = 0;
    while i < 7
        invariant
            0 <= i <= 7,
            kinds@ == all_kinds(),
            rows@.len() == i,
            forall|j: int| 0 <= j < i ==> {
                &&& (#[trigger] rows@[j]).kind == all_kinds()[j]
                &&& rows@[j].legal_positions@ == legal_position_seq(all_kinds()[j])
                &&& rows@[j].can_fail == all_kinds()[j].can_fail()
                &&& rows@[j].sub_types@ == sub_type_seq(all_kinds()[j])
            },
        decreases 7 - i,
    {
        let kind = kinds[i];
        rows.push(ActionKindInfo {
            kind,
            legal_positions: kind.legal_positions(),
            can_fail: kind.can_fail(),
            sub_types: kind.sub_types(),
        });
        i = i + 1;
    }
    rows
}

} // verus!

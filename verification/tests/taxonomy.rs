use netball_core::{action_taxonomy, ActionKind, GainSubType};

#[test]
fn only_receives_feeds_and_shots_can_fail() {
    let failable: Vec<ActionKind> = ActionKind::ALL
        .into_iter()
        .filter(|kind| kind.can_fail())
        .collect();
    assert_eq!(
        failable,
        [
            ActionKind::CentrePassReceive,
            ActionKind::Feed,
            ActionKind::Goal
        ]
    );
}

#[test]
fn only_gain_has_sub_types_and_it_has_all_three() {
    for kind in ActionKind::ALL {
        let expected: &[GainSubType] = if kind == ActionKind::Gain {
            &[
                GainSubType::Interception,
                GainSubType::Deflection,
                GainSubType::PickUp,
            ]
        } else {
            &[]
        };
        assert_eq!(kind.sub_types(), expected);
    }
}

#[test]
fn taxonomy_has_one_row_per_kind_in_order() {
    let kinds: Vec<ActionKind> = action_taxonomy().into_iter().map(|row| row.kind).collect();
    assert_eq!(kinds, ActionKind::ALL);
}

use netball_core::{Action, FeedPosition, GoalPosition, Position, ReboundPosition};

#[test]
fn subset_positions_widen_to_the_matching_position() {
    assert_eq!(Position::from(GoalPosition::Team), Position::Team);
    assert_eq!(Position::from(ReboundPosition::GK), Position::GK);
    assert_eq!(
        Action::Feed {
            position: FeedPosition::WA,
            failed: true
        }
        .position(),
        Position::WA
    );
}

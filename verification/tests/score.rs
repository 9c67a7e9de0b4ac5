use netball_core::{derive_score, Action, Event, GainSubType, GoalPosition, Position, ReboundPosition, Score, Team};

fn score_event(team: Team, action: Action) -> Event {
    Event {
        team,
        action,
        flagged: false,
        timestamp_ms: Some(1_770_000_000_000),
    }
}

fn made_goal(team: Team) -> Event {
    score_event(
        team,
        Action::Goal {
            position: GoalPosition::GS,
            failed: false,
        },
    )
}

#[test]
fn empty_log_scores_nil_all() {
    assert_eq!(
        derive_score(&[]),
        Score {
            team_a: 0,
            team_b: 0
        }
    );
}

#[test]
fn goals_are_credited_to_the_team_each_event_carries() {
    let log = [made_goal(Team::A), made_goal(Team::B), made_goal(Team::A)];
    assert_eq!(
        derive_score(&log),
        Score {
            team_a: 2,
            team_b: 1
        }
    );
}

#[test]
fn missed_shots_do_not_score() {
    let log = [
        made_goal(Team::A),
        score_event(
            Team::A,
            Action::Goal {
                position: GoalPosition::GA,
                failed: true,
            },
        ),
    ];
    assert_eq!(derive_score(&log).for_team(Team::A), 1);
}

#[test]
fn non_goal_actions_do_not_score() {
    let log = [
        score_event(
            Team::A,
            Action::Gain {
                position: Position::WD,
                sub_type: Some(GainSubType::Interception),
            },
        ),
        score_event(
            Team::A,
            Action::Rebound {
                position: ReboundPosition::GS,
            },
        ),
        score_event(
            Team::A,
            Action::Infringement {
                position: Position::Team,
            },
        ),
    ];
    assert_eq!(
        derive_score(&log),
        Score {
            team_a: 0,
            team_b: 0
        }
    );
}

#[test]
fn team_attributed_goals_score_like_any_other() {
    // The one-tap Opposition goal: an ordinary Goal event, position TEAM.
    let log = [score_event(
        Team::B,
        Action::Goal {
            position: GoalPosition::Team,
            failed: false,
        },
    )];
    assert_eq!(derive_score(&log).for_team(Team::B), 1);
}

#[test]
fn score_ignores_missing_timestamps() {
    let log = [Event {
        team: Team::B,
        action: Action::Goal {
            position: GoalPosition::Team,
            failed: false,
        },
        flagged: false,
        timestamp_ms: None,
    }];
    assert_eq!(derive_score(&log).for_team(Team::B), 1);
}

#[test]
fn post_undo_log_re_derives_without_the_last_event() {
    let log = [made_goal(Team::A), made_goal(Team::A), made_goal(Team::B)];
    let undone = &log[..log.len() - 1];
    assert_eq!(
        derive_score(undone),
        Score {
            team_a: 2,
            team_b: 0
        }
    );
}

#[test]
fn undoing_every_event_returns_to_nil_all() {
    let log = [made_goal(Team::A)];
    assert_eq!(
        derive_score(&log[..0]),
        Score {
            team_a: 0,
            team_b: 0
        }
    );
}

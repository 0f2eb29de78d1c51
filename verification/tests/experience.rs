use pumpkin::command_info::{ArgumentInfo, ArgumentKind, PermissionInfo};
use pumpkin::experience::{
    amount_accepted, amount_argument, command_names, executor_for_path, permission, target_argument, modify_action, points_in_level, ExpType, ExperienceAction, ExperienceError, ExperienceOutcome,
    Executor, MessageSubject, Mode, PlayerExperience,
};

fn p(level: i32, points: i32) -> PlayerExperience {
    PlayerExperience { level, points }
}

#[test]
fn points_in_level_values() {
    assert_eq!(points_in_level(0), 7);
    assert_eq!(points_in_level(1), 9);
    assert_eq!(points_in_level(14), 35);
    assert_eq!(points_in_level(15), 37);
    assert_eq!(points_in_level(16), 42);
    assert_eq!(points_in_level(29), 107);
    assert_eq!(points_in_level(30), 112);
    assert_eq!(points_in_level(31), 121);
    assert_eq!(points_in_level(i32::MAX), 112 + (i32::MAX as i64 - 30) * 9);
}

#[test]
fn setting_points_beyond_level_is_refused() {
    assert_eq!(modify_action(ExpType::Points, Mode::Assign, 8, 0), ExperienceAction::Refused);
    assert_eq!(modify_action(ExpType::Points, Mode::Assign, 7, 0), ExperienceAction::SetPoints(7));
    assert_eq!(modify_action(ExpType::Points, Mode::Add, 1000, 0), ExperienceAction::AddPoints(1000));
    assert_eq!(modify_action(ExpType::Levels, Mode::Assign, 5, 0), ExperienceAction::SetLevel(5));
    assert_eq!(modify_action(ExpType::Levels, Mode::Add, -3, 2), ExperienceAction::AddLevels(-3));
}

#[test]
fn success_message_keys() {
    let m = Executor::get_success_message(Mode::Add, ExpType::Points, 5, 1);
    assert_eq!(m.key, "commands.experience.add.points.success.single");
    assert_eq!(m.amount, 5);
    assert_eq!(m.subject, MessageSubject::FirstTargetName);
    let m = Executor::get_success_message(Mode::Add, ExpType::Levels, 2, 3);
    assert_eq!(m.key, "commands.experience.add.levels.success.multiple");
    assert_eq!(m.subject, MessageSubject::TargetCount(3));
    let m = Executor::get_success_message(Mode::Assign, ExpType::Points, 0, 2);
    assert_eq!(m.key, "commands.experience.set.points.success.multiple");
    let m = Executor::get_success_message(Mode::Assign, ExpType::Levels, 30, 0);
    assert_eq!(m.key, "commands.experience.set.levels.success.single");
    assert_eq!(m.subject, MessageSubject::FirstTargetName);
}

#[test]
fn query_answers_first_target() {
    let e = Executor { mode: Mode::Query, exp_type: Some(ExpType::Levels) };
    match e.execute(0, &vec![p(12, 3), p(1, 1)]) {
        Ok(ExperienceOutcome::Queried(a)) => {
            assert_eq!(a.value, 12);
            assert_eq!(a.key, "commands.experience.query.levels");
        }
        other => panic!("unexpected {:?}", other),
    }
    let e = Executor { mode: Mode::Query, exp_type: Some(ExpType::Points) };
    match e.execute(0, &vec![p(12, 3)]) {
        Ok(ExperienceOutcome::Queried(a)) => {
            assert_eq!(a.value, 3);
            assert_eq!(a.key, "commands.experience.query.points");
        }
        other => panic!("unexpected {:?}", other),
    }
}

#[test]
fn set_points_counts_successes() {
    let e = Executor { mode: Mode::Assign, exp_type: Some(ExpType::Points) };
    match e.execute(10, &vec![p(0, 0), p(2, 0), p(1, 0)]) {
        Ok(ExperienceOutcome::Modified { actions, successes, message }) => {
            assert_eq!(
                actions,
                vec![ExperienceAction::Refused, ExperienceAction::SetPoints(10), ExperienceAction::Refused]
            );
            assert_eq!(successes, 1);
            assert_eq!(message.key, "commands.experience.set.points.success.multiple");
            assert_eq!(message.subject, MessageSubject::TargetCount(3));
        }
        other => panic!("unexpected {:?}", other),
    }
}

#[test]
fn set_points_with_no_success_fails() {
    let e = Executor { mode: Mode::Assign, exp_type: Some(ExpType::Points) };
    assert_eq!(e.execute(100, &vec![p(0, 0), p(1, 5)]).err(), Some(ExperienceError::SetPointsInvalid));
    assert_eq!(e.execute(1, &vec![]).err(), Some(ExperienceError::SetPointsInvalid));
}

#[test]
fn adding_levels_changes_every_target() {
    let e = Executor { mode: Mode::Add, exp_type: Some(ExpType::Levels) };
    match e.execute(4, &vec![p(0, 0), p(50, 1)]) {
        Ok(ExperienceOutcome::Modified { actions, successes, message }) => {
            assert_eq!(actions, vec![ExperienceAction::AddLevels(4), ExperienceAction::AddLevels(4)]);
            assert_eq!(successes, 2);
            assert_eq!(message.amount, 4);
        }
        other => panic!("unexpected {:?}", other),
    }
}

#[test]
fn experience_error_key() {
    assert_eq!(ExperienceError::SetPointsInvalid.translation_key(), "commands.experience.set.points.invalid");
}

#[test]
fn command_paths_and_arguments() {
    assert_eq!(executor_for_path(Mode::Add, None), Some(Executor { mode: Mode::Add, exp_type: Some(ExpType::Points) }));
    assert_eq!(executor_for_path(Mode::Assign, Some(ExpType::Levels)), Some(Executor { mode: Mode::Assign, exp_type: Some(ExpType::Levels) }));
    assert_eq!(executor_for_path(Mode::Query, Some(ExpType::Points)), Some(Executor { mode: Mode::Query, exp_type: Some(ExpType::Points) }));
    assert_eq!(executor_for_path(Mode::Query, None), None);
    assert!(amount_accepted(Mode::Add, -5));
    assert!(amount_accepted(Mode::Assign, 0));
    assert!(!amount_accepted(Mode::Assign, -1));
    assert!(!amount_accepted(Mode::Query, 3));
    assert_eq!(target_argument(Mode::Add), ArgumentInfo { name: "target", kind: ArgumentKind::Players, custom_suggestions: false, executes: false });
    assert_eq!(target_argument(Mode::Query).kind, ArgumentKind::Player);
    assert_eq!(amount_argument(Mode::Assign), Some(ArgumentInfo { name: "amount", kind: ArgumentKind::NonNegativeInteger, custom_suggestions: false, executes: true }));
    assert_eq!(amount_argument(Mode::Add).unwrap().kind, ArgumentKind::Integer);
    assert_eq!(amount_argument(Mode::Query), None);
    assert_eq!(command_names(), ("experience", "xp"));
    assert_eq!(
        permission(),
        PermissionInfo {
            node: "minecraft:command.experience",
            description: "Add, set or query player experience.",
            default_op_level: 2,
        }
    );
}

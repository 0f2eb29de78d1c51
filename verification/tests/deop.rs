use pumpkin::command_info::{ArgumentInfo, ArgumentKind, PermissionInfo};
use pumpkin::deop::{command_name, permission, targets_argument, DeOpCommandExecutor, DeOpSuggestionProvider, DeopError, GameProfile, OperatorEntry};

fn op(uuid: u128, name: &str) -> OperatorEntry {
    OperatorEntry { uuid, name: name.to_string(), level: 4, bypasses_player_limit: false }
}

fn profile(id: u128, name: &str) -> GameProfile {
    GameProfile { id, name: name.to_string() }
}

fn names(ops: &[OperatorEntry]) -> Vec<String> {
    ops.iter().map(|o| o.name.clone()).collect()
}

#[test]
fn removes_named_operators() {
    let mut ops = vec![op(1, "Alex"), op(2, "Steve"), op(3, "Notch")];
    let profiles = vec![profile(3, "Notch"), profile(9, "Nobody"), profile(1, "Alex")];
    let out = DeOpCommandExecutor::execute(&mut ops, &profiles).unwrap();
    assert_eq!(out.deopped, vec![0, 2]);
    assert_eq!(out.count, 2);
    assert_eq!(names(&ops), vec!["Steve"]);
}

#[test]
fn no_operator_among_profiles_fails() {
    let mut ops = vec![op(1, "Alex")];
    let profiles = vec![profile(5, "Herobrine")];
    assert_eq!(DeOpCommandExecutor::execute(&mut ops, &profiles).err(), Some(DeopError::NotOp));
    assert_eq!(names(&ops), vec!["Alex"]);
    let mut empty: Vec<OperatorEntry> = vec![];
    assert_eq!(DeOpCommandExecutor::execute(&mut empty, &vec![]).err(), Some(DeopError::NotOp));
}

#[test]
fn same_profile_twice_removes_once_per_entry() {
    let mut ops = vec![op(1, "Alex"), op(2, "Steve")];
    let profiles = vec![profile(1, "Alex"), profile(1, "Alex")];
    let out = DeOpCommandExecutor::execute(&mut ops, &profiles).unwrap();
    assert_eq!(out.deopped, vec![0]);
    assert_eq!(out.count, 1);
    assert_eq!(names(&ops), vec!["Steve"]);
}

#[test]
fn duplicate_entries_each_need_a_profile() {
    let mut ops = vec![op(1, "Alex"), op(1, "Alex again")];
    let out = DeOpCommandExecutor::execute(&mut ops, &vec![profile(1, "Alex")]).unwrap();
    assert_eq!(out.count, 1);
    assert_eq!(names(&ops), vec!["Alex again"]);
}

#[test]
fn suggests_every_operator_name() {
    let ops = vec![op(1, "Alex"), op(2, "Steve")];
    assert_eq!(DeOpSuggestionProvider::suggest(&ops), vec!["Alex", "Steve"]);
    assert!(DeOpSuggestionProvider::suggest(&vec![]).is_empty());
}

#[test]
fn deop_error_key() {
    assert_eq!(DeopError::NotOp.translation_key(), "commands.deop.failed");
}

#[test]
fn unnamed_operators_keep_their_order() {
    let mut ops = vec![op(1, "A"), op(2, "B"), op(3, "C"), op(4, "D"), op(5, "E")];
    let profiles = vec![profile(4, "D"), profile(2, "B"), profile(7, "G")];
    let out = DeOpCommandExecutor::execute(&mut ops, &profiles).unwrap();
    assert_eq!(out.deopped, vec![0, 1]);
    assert_eq!(names(&ops), vec!["A", "C", "E"]);
}

#[test]
fn deop_command_registration() {
    assert_eq!(command_name(), "deop");
    assert_eq!(
        permission(),
        PermissionInfo { node: "minecraft:command.deop", description: "Revokes operator status from a player.", default_op_level: 3 }
    );
    assert_eq!(
        targets_argument(),
        ArgumentInfo { name: "targets", kind: ArgumentKind::GameProfiles, custom_suggestions: true, executes: true }
    );
}

#[test]
fn feedback_names_each_revoked_profile() {
    let mut ops = vec![op(1, "Alex"), op(2, "Steve")];
    let profiles = vec![profile(2, "Steve"), profile(3, "Nobody"), profile(1, "Alex")];
    let out = DeOpCommandExecutor::execute(&mut ops, &profiles).unwrap();
    let fb: Vec<(&str, String)> = out.feedback.iter().map(|f| (f.key, f.name.clone())).collect();
    assert_eq!(fb, vec![("commands.deop.success", "Steve".to_string()), ("commands.deop.success", "Alex".to_string())]);
}

use pumpkin::command_info::{ArgumentKind, PermissionInfo};
use pumpkin::fetchprofile::{
    command_name, literal, path_argument, permission, FetchBy, FetchProfileEntityExecutor, FetchProfileIdExecutor,
    FetchProfileNameExecutor,
};

#[test]
fn fetchprofile_registration() {
    assert_eq!(command_name(), "fetchprofile");
    assert_eq!(
        permission(),
        PermissionInfo {
            node: "minecraft:command.fetchprofile",
            description: "Fetches a player's profile with some useful utilities.",
            default_op_level: 2,
        }
    );
    assert_eq!(literal(FetchBy::Name), "name");
    assert_eq!(literal(FetchBy::Id), "id");
    assert_eq!(literal(FetchBy::Entity), "entity");
    assert_eq!(path_argument(FetchBy::Name).kind, ArgumentKind::GreedyPhrase);
    assert_eq!(path_argument(FetchBy::Id).name, "id");
    assert_eq!(path_argument(FetchBy::Entity).kind, ArgumentKind::Entity);
    assert!(path_argument(FetchBy::Id).executes);
}

#[test]
fn fetchprofile_executors_return_zero() {
    assert_eq!(FetchProfileNameExecutor.execute(), 0);
    assert_eq!(FetchProfileIdExecutor.execute(), 0);
    assert_eq!(FetchProfileEntityExecutor.execute(), 0);
}

//! The `fetchprofile` command: how it is registered, and its executors,
//! which as yet do nothing and report a result of zero.

use vstd::prelude::*;
use crate::command_info::{ArgumentInfo, ArgumentKind, PermissionInfo};

verus! {

/// How the command looks a profile up: the literal that follows the
/// command's name.
#[derive(Clone, Copy, Debug, PartialEq, Eq, Structural)]
pub enum FetchBy {
    Name,
    Id,
    Entity,
}

/// The command's name.
pub fn command_name() -> (r: &'static str)
    ensures
        r@ == "fetchprofile"@,
{
    "fetchprofile"
}

/// The permission the command needs, which operators of level two have by
/// default.
pub fn permission() -> (r: PermissionInfo)
    ensures
        r.node@ == "minecraft:command.fetchprofile"@,
        r.description@ == "Fetches a player's profile with some useful utilities."@,
        r.default_op_level == 2,
{
    PermissionInfo {
        node: "minecraft:command.fetchprofile",
        description: "Fetches a player's profile with some useful utilities.",
        default_op_level: 2,
    }
}

/// The literal of the path that looks a profile up by `by`.
pub fn literal(by: FetchBy) -> (r: &'static str)
    ensures
        by == FetchBy::Name ==> r@ == "name"@,
        by == FetchBy::Id ==> r@ == "id"@,
        by == FetchBy::Entity ==> r@ == "entity"@,
{
    match by {
        FetchBy::Name => "name",
        FetchBy::Id => "id",
        FetchBy::Entity => "entity",
    }
}

/// The one argument after the literal of the path that looks a profile up
/// by `by`: a name (the rest of the line), a UUID, or one entity; the
/// command runs when the line ends after it.
pub fn path_argument(by: FetchBy) -> (r: ArgumentInfo)
    ensures
        by == FetchBy::Name ==> r.name@ == "name"@ && r.kind == ArgumentKind::GreedyPhrase,
        by == FetchBy::Id ==> r.name@ == "id"@ && r.kind == ArgumentKind::Uuid,
        by == FetchBy::Entity ==> r.name@ == "entity"@ && r.kind == ArgumentKind::Entity,
        !r.custom_suggestions,
        r.executes,
{
    match by {
        FetchBy::Name => ArgumentInfo { name: "name", kind: ArgumentKind::GreedyPhrase, custom_suggestions: false, executes: true },
        FetchBy::Id => ArgumentInfo { name: "id", kind: ArgumentKind::Uuid, custom_suggestions: false, executes: true },
        FetchBy::Entity => ArgumentInfo { name: "entity", kind: ArgumentKind::Entity, custom_suggestions: false, executes: true },
    }
}

/// Runs the path that looks a profile up by name.
pub struct FetchProfileNameExecutor;

/// Runs the path that looks a profile up by UUID.
pub struct FetchProfileIdExecutor;

/// Runs the path that looks a profile up by entity.
pub struct FetchProfileEntityExecutor;

impl FetchProfileNameExecutor {
    /// Succeeds with the result zero.
    pub fn execute(&self) -> (r: i32)
        ensures
            r == 0,
    {
        0
    }
}

impl FetchProfileIdExecutor {
    /// Succeeds with the result zero.
    pub fn execute(&self) -> (r: i32)
        ensures
            r == 0,
    {
        0
    }
}

impl FetchProfileEntityExecutor {
    /// Succeeds with the result zero.
    pub fn execute(&self) -> (r: i32)
        ensures
            r == 0,
    {
        0
    }
}

} // verus!

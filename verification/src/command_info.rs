//! How a command is registered: the permission it needs and the arguments
//! along its paths.

use vstd::prelude::*;

verus! {

/// What an argument of a command reads.
#[derive(Clone, Copy, Debug, PartialEq, Eq, Structural)]
pub enum ArgumentKind {
    /// Any number of player profiles, online or not.
    GameProfiles,
    /// Any number of online players.
    Players,
    /// Exactly one online player.
    Player,
    /// Exactly one entity.
    Entity,
    /// Any 32-bit integer.
    Integer,
    /// A 32-bit integer no smaller than zero.
    NonNegativeInteger,
    /// The rest of the line, spaces included.
    GreedyPhrase,
    /// A UUID.
    Uuid,
}

/// A permission that a command registers: its node, what it allows, and the
/// operator level that has it by default.
#[derive(Clone, Copy, Debug, PartialEq, Eq)]
pub struct PermissionInfo {
    pub node: &'static str,
    pub description: &'static str,
    pub default_op_level: u8,
}

/// An argument on a path of a command: its name, what it reads, whether the
/// command offers its own suggestions for it, and whether the command runs
/// when the line ends after it.
#[derive(Clone, Copy, Debug, PartialEq, Eq)]
pub struct ArgumentInfo {
    pub name: &'static str,
    pub kind: ArgumentKind,
    pub custom_suggestions: bool,
    pub executes: bool,
}

} // verus!

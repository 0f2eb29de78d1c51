//! Command-argument parsing, command decision logic and the signed chat
//! command packet of a Minecraft server, with their contracts.

pub mod argument_type;
pub mod chat_command_signed;
pub mod codec;
pub mod command_info;
pub mod color;
pub mod deop;
pub mod dimension;
pub mod experience;
pub mod fetchprofile;
pub mod identifier;
pub mod message;
pub mod string_reader;

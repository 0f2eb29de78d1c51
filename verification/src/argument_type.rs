//! What the client is told about the argument types, so that it can parse
//! and complete them on its side.

use vstd::prelude::*;
use crate::color::ColorArgumentType;
use crate::dimension::DimensionArgumentType;
use crate::message::MessageArgumentType;

verus! {

/// The parser that the client uses for an argument.
#[derive(Clone, Copy, Debug, PartialEq, Eq, Structural)]
pub enum ClientArgumentType {
    Color,
    Dimension,
    Message,
}

impl ColorArgumentType {
    /// The client parses this argument as a color.
    pub fn client_side_parser(&self) -> (r: ClientArgumentType)
        ensures
            r == ClientArgumentType::Color,
    {
        ClientArgumentType::Color
    }

    /// Example values of the argument.
    pub fn examples(&self) -> (r: Vec<String>)
        ensures
            r@.len() == 3,
            r@[0]@ == "red"@,
            r@[1]@ == "blue"@,
            r@[2]@ == "yellow"@,
    {
        vec!["red".to_string(), "blue".to_string(), "yellow".to_string()]
    }
}

impl DimensionArgumentType {
    /// The client parses this argument as a dimension.
    pub fn client_side_parser(&self) -> (r: ClientArgumentType)
        ensures
            r == ClientArgumentType::Dimension,
    {
        ClientArgumentType::Dimension
    }

    /// Example values of the argument.
    pub fn examples(&self) -> (r: Vec<String>)
        ensures
            r@.len() == 2,
            r@[0]@ == "minecraft:overworld"@,
            r@[1]@ == "the_nether"@,
    {
        vec!["minecraft:overworld".to_string(), "the_nether".to_string()]
    }
}

impl MessageArgumentType {
    /// The client parses this argument as a message.
    pub fn client_side_parser(&self) -> (r: ClientArgumentType)
        ensures
            r == ClientArgumentType::Message,
    {
        ClientArgumentType::Message
    }
}

} // verus!

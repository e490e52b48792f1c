//! The errors the supervisor reports, each with its exact message.
//!
//! The RPC layer forwards these messages verbatim to the client, so the
//! text of each one is part of the observable behaviour and is pinned by
//! `spec_message`.

use vstd::prelude::*;
use crate::numfmt::spec_decimal;
use crate::numfmt::u32_to_string;

verus! {

/// A failure of a supervisor operation.
#[derive(Debug)]
pub enum ServerError {
    /// The artifact path has no file stem to derive a program id from.
    NoFileStem { path: String },
    /// An id prefix matched no live program.
    NotFound { id: String },
    /// An id prefix matched more than one live program.
    Ambiguous { id: String },
    /// A program type code with no engine behind it.
    UnknownProgramType { program_type: u32 },
    /// A freshly formed program id collides with a registered one.
    IdCollision { id: String },
    /// The durable registry reported a failure; the message is the
    /// registry's own.
    Registry { message: String },
    /// A registry key is not valid UTF-8.
    CorruptKey,
    /// A registry value does not decode as program metadata.
    CorruptMeta,
}

/// The message reported for an error, character for character.
pub open spec fn spec_message(e: ServerError) -> Seq<char> {
    match e {
        ServerError::NoFileStem { path } => "failed to get file name in path "@ + path@,
        ServerError::NotFound { id } => "program "@ + id@ + " not found"@,
        ServerError::Ambiguous { id } => "ambiguous program id "@ + id@
            + ", more than one program starts with this id"@,
        ServerError::UnknownProgramType { program_type } => "unknown program type "@
            + spec_decimal(program_type as nat),
        ServerError::IdCollision { id } => "program id "@ + id@ + " already exists"@,
        ServerError::Registry { message } => message@,
        ServerError::CorruptKey => "invalid program id in the registry"@,
        ServerError::CorruptMeta => "invalid program metadata in the registry"@,
    }
}

impl ServerError {
    /// Renders the message reported to the client.
    pub fn message(&self) -> (r: String)
        ensures
            r@ == spec_message(*self),
    {
        match self {
            ServerError::NoFileStem { path } => String::from_str(
                "failed to get file name in path ",
            ).concat(path.as_str()),
            ServerError::NotFound { id } => String::from_str("program ").concat(id.as_str())
                .concat(" not found"),
            ServerError::Ambiguous { id } => String::from_str("ambiguous program id ").concat(
                id.as_str(),
            ).concat(", more than one program starts with this id"),
            ServerError::UnknownProgramType { program_type } => String::from_str(
                "unknown program type ",
            ).concat(u32_to_string(*program_type).as_str()),
            ServerError::IdCollision { id } => String::from_str("program id ").concat(id.as_str())
                .concat(" already exists"),
            ServerError::Registry { message } => message.clone(),
            ServerError::CorruptKey => String::from_str("invalid program id in the registry"),
            ServerError::CorruptMeta => String::from_str("invalid program metadata in the registry"),
        }
    }
}

} // verus!

use vstd::prelude::*;

verus! {

/// The closed set of protocol operations. Each one has a stable wire identifier.
#[derive(Debug, Clone, Copy, PartialEq, Eq, Structural)]
pub enum CommandId {
    Put,
    Get,
    Version,
    List,
}

/// Wire identifier of each command.
pub open spec fn wire_id(c: CommandId) -> u32 {
    match c {
        CommandId::Put => 1,
        CommandId::Get => 2,
        CommandId::Version => 3,
        CommandId::List => 4,
    }
}

/// The largest response, in bytes, that a caller must be ready to receive for a command.
pub open spec fn max_response_size_of(c: CommandId) -> u32 {
    match c {
        CommandId::Version => 1024,
        _ => 1048576,
    }
}

pub const LARGE_RESPONSE_SIZE: u32 = 1024 * 1024;

pub const SMALL_RESPONSE_SIZE: u32 = 1024;

impl CommandId {
    /// The command's wire identifier.
    pub fn as_u32(&self) -> (r: u32)
        ensures
            r == wire_id(*self),
    {
        match self {
            CommandId::Put => 1,
            CommandId::Get => 2,
            CommandId::Version => 3,
            CommandId::List => 4,
        }
    }

    /// The command that a wire identifier names; the identifier itself when it names none.
    pub fn try_from_u32(v: u32) -> (r: Result<CommandId, u32>)
        ensures
            match r {
                Ok(c) => wire_id(c) == v,
                Err(e) => e == v && (forall|c: CommandId| wire_id(c) != v),
            },
    {
        if v == 1 {
            Ok(CommandId::Put)
        } else if v == 2 {
            Ok(CommandId::Get)
        } else if v == 3 {
            Ok(CommandId::Version)
        } else if v == 4 {
            Ok(CommandId::List)
        } else {
            Err(v)
        }
    }

    /// The response ceiling of the command, which sizes the caller's receive buffer.
    pub fn max_response_size(&self) -> (r: u32)
        ensures
            r == max_response_size_of(*self),
    {
        match self {
            CommandId::Version => SMALL_RESPONSE_SIZE,
            _ => LARGE_RESPONSE_SIZE,
        }
    }
}

/// Distinct commands have distinct wire identifiers.
pub proof fn lemma_wire_id_injective(a: CommandId, b: CommandId)
    ensures
        wire_id(a) == wire_id(b) ==> a == b,
{
}

} // verus!

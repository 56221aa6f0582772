//! Command protocol and key addressing for a secure-storage service: the command
//! identifiers, the request and response shapes with their response-size ceilings,
//! the versioned textual key grammar, and the storage domain registry.

pub mod command;
pub mod domain;
pub mod key;
pub mod protocol;
pub mod text;

pub use command::CommandId;
pub use domain::StorageDomain;
pub use key::{Key, ParseKeyErr};
pub use protocol::{
    serialize_into, BufferTooSmallErr, CommandMismatch, DecodeErr, GetRequest, GetResponse,
    ListRequest, ListResponse, PutRequest, PutResponse, Request, Response, VersionRequest,
    VersionResponse,
};

use vstd::prelude::*;
use crate::text::{u64_decimal, decimal_text};

verus! {

/// Errors reported by the message queue.
///
/// Each variant carries a human readable description (or the offending
/// value), as the broker sends it back to clients.
#[derive(Debug, Clone, PartialEq, Eq)]
pub enum GaffaError {
    Io(String),
    Serialization(String),
    TopicNotFound(String),
    PartitionNotFound(String, u32),
    InvalidOffset(u64),
    Protocol(String),
    Connection(String),
    InvalidMessage(String),
    Storage(String),
    Corruption(String),
    Compression(String),
    ConsumerNotFound(String),
    GroupNotFound(String),
}

/// The description of an error, as the broker reports it.
pub open spec fn error_text(e: GaffaError) -> Seq<char> {
    match e {
        GaffaError::Io(s) => "IO error: "@ + s@,
        GaffaError::Serialization(s) => "Serialization error: "@ + s@,
        GaffaError::TopicNotFound(s) => "Topic not found: "@ + s@,
        GaffaError::PartitionNotFound(t, p) => "Partition not found: topic="@ + t@ + ", partition="@
            + decimal_text(p as nat),
        GaffaError::InvalidOffset(o) => "Invalid offset: "@ + decimal_text(o as nat),
        GaffaError::Protocol(s) => "Protocol error: "@ + s@,
        GaffaError::Connection(s) => "Connection error: "@ + s@,
        GaffaError::InvalidMessage(s) => "Invalid message: "@ + s@,
        GaffaError::Storage(s) => "Storage error: "@ + s@,
        GaffaError::Corruption(s) => "Data corruption: "@ + s@,
        GaffaError::Compression(s) => "Compression error: "@ + s@,
        GaffaError::ConsumerNotFound(s) => "Consumer not found: "@ + s@,
        GaffaError::GroupNotFound(s) => "Consumer group not found: "@ + s@,
    }
}

fn prefixed(prefix: &str, s: &String) -> (r: String)
    ensures
        r@ == prefix@ + s@,
{
    let mut r = String::from_str(prefix);
    r.append(s.as_str());
    r
}

impl GaffaError {
    /// The description of the error.
    pub fn to_message(&self) -> (r: String)
        ensures
            r@ == error_text(*self),
    {
        match self {
            GaffaError::Io(s) => prefixed("IO error: ", s),
            GaffaError::Serialization(s) => prefixed("Serialization error: ", s),
            GaffaError::TopicNotFound(s) => prefixed("Topic not found: ", s),
            GaffaError::PartitionNotFound(t, p) => {
                let mut r = prefixed("Partition not found: topic=", t);
                r.append(", partition=");
                r.append(u64_decimal(*p as u64).as_str());
                r
            },
            GaffaError::InvalidOffset(o) => {
                let mut r = String::from_str("Invalid offset: ");
                r.append(u64_decimal(*o).as_str());
                r
            },
            GaffaError::Protocol(s) => prefixed("Protocol error: ", s),
            GaffaError::Connection(s) => prefixed("Connection error: ", s),
            GaffaError::InvalidMessage(s) => prefixed("Invalid message: ", s),
            GaffaError::Storage(s) => prefixed("Storage error: ", s),
            GaffaError::Corruption(s) => prefixed("Data corruption: ", s),
            GaffaError::Compression(s) => prefixed("Compression error: ", s),
            GaffaError::ConsumerNotFound(s) => prefixed("Consumer not found: ", s),
            GaffaError::GroupNotFound(s) => prefixed("Consumer group not found: ", s),
        }
    }
}

/// Result type used throughout the library.
pub type Result<T> = core::result::Result<T, GaffaError>;

} // verus!

use crate::error::SnipError;
use crate::ids::{parse_uuid, uuid_of_text};
use crate::time::{parse_timestamp, rfc3339_instant};
use vstd::prelude::*;

verus! {

/// A point in time: seconds and nanoseconds since the Unix epoch, with the
/// offset from UTC, in seconds, under which it is shown.
#[derive(Debug, Clone, Copy, PartialEq, Eq, Structural)]
pub struct Timestamp {
    pub seconds: i64,
    pub nanos: u32,
    pub offset: i32,
}

/// Binary data attached to a document.
#[derive(Debug)]
pub struct Attachment {
    /// The attachment's identifier, as a 128-bit value.
    pub uuid: u128,
    /// The identifier of the document that it belongs to.
    pub snip_uuid: u128,
    pub timestamp: Timestamp,
    pub name: String,
    pub data: Vec<u8>,
    /// The length of `data` in bytes.
    pub size: usize,
}

/// The attachment of a stored row and its data. Fails where the row holds
/// no UUID for the attachment or for its document, or no point in time.
pub fn attachment_from_db(
    uuid: String,
    snip_uuid: String,
    timestamp: String,
    name: String,
    size: usize,
    data: Vec<u8>,
) -> (out: Result<Attachment, SnipError>)
    ensures
        match (uuid_of_text(uuid@), uuid_of_text(snip_uuid@), rfc3339_instant(timestamp@)) {
            (Some(id), Some(owner), Some(parts)) => out matches Ok(a) && a.uuid == id
                && a.snip_uuid == owner && a.timestamp.parts() == parts && a.name == name
                && a.size == size && a.data == data,
            _ => out matches Err(e) && e is General,
        },
{
    let uuid = match parse_uuid(uuid.as_str()) {
        Ok(v) => v,
        Err(e) => {
            return Err(e);
        },
    };
    let snip_uuid = match parse_uuid(snip_uuid.as_str()) {
        Ok(v) => v,
        Err(e) => {
            return Err(e);
        },
    };
    let timestamp = match parse_timestamp(timestamp.as_str()) {
        Ok(v) => v,
        Err(e) => {
            return Err(e);
        },
    };
    Ok(Attachment { uuid, snip_uuid, timestamp, name, size, data })
}

} // verus!

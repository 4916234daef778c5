use crate::error::SnipError;
use crate::text::{chars_of, split_chars, split_on, strings_of, text_views};
use uuid::Uuid;
use vstd::prelude::*;
use vstd::string::*;

verus! {

/// The error that the `uuid` crate reports for a text that is no UUID.
#[verifier::external_type_specification]
#[verifier::external_body]
pub struct ExUuidError(uuid::Error);

/// The 128-bit value of the UUID that a text denotes, where it denotes one:
/// what `Uuid::try_parse` makes of the text.
pub uninterp spec fn uuid_of_text(text: Seq<char>) -> Option<u128>;

/// The hyphenated lower-case form of the UUID with a 128-bit value: what
/// `Uuid`'s `to_string` gives for it.
pub uninterp spec fn uuid_text(value: u128) -> Seq<char>;

/// Calls `Uuid::try_parse` and `Uuid::as_u128`. Trusted: whether the text
/// is read as a UUID, and as which, depends on the text alone.
#[verifier::external_body]
pub(crate) fn try_parse_uuid(text: &str) -> (out: Result<u128, uuid::Error>)
    ensures
        match uuid_of_text(text@) {
            Some(value) => out == Ok::<u128, uuid::Error>(value),
            None => out is Err,
        },
{
    Uuid::try_parse(text).map(|id| id.as_u128())
}

/// Renders the error of `Uuid::try_parse` with its `Display`.
#[verifier::external_body]
pub(crate) fn uuid_error_text(error: &uuid::Error) -> (out: String) {
    format!("{}", error)
}

/// Calls `Uuid::from_u128` and the `to_string` of `Uuid`. Trusted: the
/// text depends on the value alone.
#[verifier::external_body]
pub(crate) fn hyphenated(value: u128) -> (out: String)
    ensures
        out@ == uuid_text(value),
{
    Uuid::from_u128(value).to_string()
}

/// Reads a UUID. Fails where the text is none.
pub fn parse_uuid(text: &str) -> (out: Result<u128, SnipError>)
    ensures
        match uuid_of_text(text@) {
            Some(value) => out matches Ok(v) && v == value,
            None => out matches Err(e) && e is General,
        },
{
    match try_parse_uuid(text) {
        Ok(value) => Ok(value),
        Err(e) => Err(SnipError::General(uuid_error_text(&e))),
    }
}

/// Writes a UUID in its hyphenated form.
pub fn uuid_to_string(uuid: u128) -> (out: String)
    ensures
        out@ == uuid_text(uuid),
{
    hyphenated(uuid)
}

/// The parts of a text between its hyphens.
pub fn split_at_hyphens(text: &str) -> (out: Vec<String>)
    ensures
        text_views(out@) == split_on(text@, '-'),
{
    let chars = chars_of(text);
    let parts = split_chars(&chars, '-');
    strings_of(&parts)
}

/// The groups of a UUID: the parts of its hyphenated form between the
/// hyphens.
pub fn split_uuid(uuid: &u128) -> (out: Vec<String>)
    ensures
        text_views(out@) == split_on(uuid_text(*uuid), '-'),
{
    let text = hyphenated(*uuid);
    split_at_hyphens(text.as_str())
}

/// The ways in which a lookup by a part of an identifier can end.
pub enum Lookup {
    /// Exactly one identifier matched: this one.
    Found(u128),
    /// More than one identifier matched.
    Ambiguous,
    /// No identifier matched.
    Missing,
    /// What matched is no UUID.
    Malformed,
}

/// What a lookup by a part of an identifier comes to, given the
/// identifiers that the store found for the part: more than one is
/// ambiguous, none, or an empty one, is not found, and a single one must
/// denote a UUID.
pub open spec fn unique_match(found: Seq<Seq<char>>) -> Lookup {
    if found.len() > 1 {
        Lookup::Ambiguous
    } else if found.len() == 0 || found[0].len() == 0 {
        Lookup::Missing
    } else {
        match uuid_of_text(found[0]) {
            Some(value) => Lookup::Found(value),
            None => Lookup::Malformed,
        }
    }
}

fn resolve_unique(found: &Vec<String>, ambiguous: String, missing: String) -> (out: Result<
    u128,
    SnipError,
>)
    ensures
        match unique_match(text_views(found@)) {
            Lookup::Found(value) => out matches Ok(v) && v == value,
            Lookup::Ambiguous => out matches Err(e) && e is UuidMultipleMatches && e.detail()
                == ambiguous@,
            Lookup::Missing => out matches Err(e) && e is UuidNotFound && e.detail() == missing@,
            Lookup::Malformed => out matches Err(e) && e is General,
        },
{
    assert(found@.len() > 0 ==> text_views(found@)[0] == found@[0]@);
    if found.len() > 1 {
        return Err(SnipError::UuidMultipleMatches(ambiguous));
    }
    if found.len() == 1 && !found[0].as_str().is_empty() {
        return parse_uuid(found[0].as_str());
    }
    Err(SnipError::UuidNotFound(missing))
}

/// Resolves a part of a document's identifier, given the identifiers that
/// the store found for it (two suffice to show that it is ambiguous). Fails
/// where there is none, more than one, or one that is no UUID.
pub fn search_uuid(found: &Vec<String>, id_partial: &str) -> (out: Result<u128, SnipError>)
    ensures
        match unique_match(text_views(found@)) {
            Lookup::Found(value) => out matches Ok(v) && v == value,
            Lookup::Ambiguous => out matches Err(e) && e is UuidMultipleMatches && e.detail()
                == "provided partial "@ + id_partial@ + " returned multiple document uuids"@,
            Lookup::Missing => out matches Err(e) && e is UuidNotFound && e.detail()
                == "The document id was not found using id "@ + id_partial@,
            Lookup::Malformed => out matches Err(e) && e is General,
        },
{
    let ambiguous = "provided partial ".to_owned().concat(id_partial).concat(
        " returned multiple document uuids",
    );
    let missing = "The document id was not found using id ".to_owned().concat(id_partial);
    resolve_unique(found, ambiguous, missing)
}

/// Resolves a part of an attachment's identifier, given the identifiers
/// that the store found for it. Fails where there is none, more than one,
/// or one that is no UUID.
pub fn search_attachment_uuid(found: &Vec<String>, id_partial: &str) -> (out: Result<
    u128,
    SnipError,
>)
    ensures
        match unique_match(text_views(found@)) {
            Lookup::Found(value) => out matches Ok(v) && v == value,
            Lookup::Ambiguous => out matches Err(e) && e is UuidMultipleMatches && e.detail()
                == "provided partial "@ + id_partial@ + " returned multiple attachment uuids"@,
            Lookup::Missing => out matches Err(e) && e is UuidNotFound && e.detail()
                == "attachment uuid not found using partial "@ + id_partial@,
            Lookup::Malformed => out matches Err(e) && e is General,
        },
{
    let ambiguous = "provided partial ".to_owned().concat(id_partial).concat(
        " returned multiple attachment uuids",
    );
    let missing = "attachment uuid not found using partial ".to_owned().concat(id_partial);
    resolve_unique(found, ambiguous, missing)
}

} // verus!

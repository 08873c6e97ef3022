//! MIME handling: parsing a declared MIME string through the `mime` types
//! re-exported by `mime_guess`, with the generic octet-stream fallback for a
//! declared type that does not parse.

use std::str::FromStr;
use vstd::prelude::*;

verus! {

/// What parsing a MIME string returns: `Some` of the parsed type's canonical
/// text exactly when the string parses as a MIME type. The result depends on
/// the characters of the string alone.
pub uninterp spec fn mime_parse(s: Seq<char>) -> Option<Seq<char>>;

/// The generic binary fallback substituted for a declared MIME type that
/// does not parse.
pub open spec fn octet_stream() -> Seq<char> {
    "application/octet-stream"@
}

/// The MIME type stored for an item that declares `s`: the parsed type when
/// `s` parses, the generic octet-stream fallback otherwise.
pub open spec fn effective_mime(s: Seq<char>) -> Seq<char> {
    match mime_parse(s) {
        Some(m) => m,
        None => octet_stream(),
    }
}

/// Relies on `mime_guess::Mime::from_str` (the `mime` crate's parser): it
/// accepts or rejects by the characters of `s` alone, and `to_string` renders
/// the parsed type's text.
#[verifier::external_body]
fn parse_mime(s: &str) -> (r: Option<String>)
    ensures
        match r {
            Some(m) => mime_parse(s@) == Some(m@),
            None => mime_parse(s@) is None,
        },
{
    match mime_guess::Mime::from_str(s) {
        Ok(m) => Some(m.to_string()),
        Err(_) => None,
    }
}

/// The MIME type stored for an item with declared type `s`: a declared type
/// that does not parse is not fatal, it is coerced to the generic
/// octet-stream type.
pub fn mime_or_fallback(s: &str) -> (r: String)
    ensures
        r@ == effective_mime(s@),
{
    match parse_mime(s) {
        Some(m) => m,
        None => {
            let f = "application/octet-stream";
            f.to_owned()
        },
    }
}

} // verus!

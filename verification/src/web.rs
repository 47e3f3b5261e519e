//! What the web interface takes for granted: defaults of its requests, and
//! the media types of the files it serves.

use vstd::prelude::*;
use crate::model::LinkType;
use crate::text::text_eq;

verus! {

/// How many memories a search returns where the request does not say.
pub fn default_limit() -> (limit: usize)
    ensures
        limit == 10,
{
    10
}

/// The type of a link where the request does not say.
pub fn default_link_type() -> (name: String)
    ensures
        name@ == LinkType::Related.name(),
{
    LinkType::Related.as_string()
}

/// The media type of a file with the extension `ext`.
pub open spec fn media_type(ext: Seq<char>) -> Seq<char> {
    if ext == "html"@ {
        "text/html"@
    } else if ext == "js"@ {
        "application/javascript"@
    } else if ext == "css"@ {
        "text/css"@
    } else if ext == "json"@ {
        "application/json"@
    } else if ext == "png"@ {
        "image/png"@
    } else if ext == "jpg"@ || ext == "jpeg"@ {
        "image/jpeg"@
    } else if ext == "svg"@ {
        "image/svg+xml"@
    } else if ext == "ico"@ {
        "image/x-icon"@
    } else if ext == "woff"@ {
        "font/woff"@
    } else if ext == "woff2"@ {
        "font/woff2"@
    } else if ext == "ttf"@ {
        "font/ttf"@
    } else if ext == "wasm"@ {
        "application/wasm"@
    } else {
        "application/octet-stream"@
    }
}

/// The media type of a file with the extension `ext`. An extension that is
/// not known is served as a stream of bytes.
pub fn mime_from_ext(ext: &str) -> (mime: &'static str)
    ensures
        mime@ == media_type(ext@),
{
    if text_eq(ext, "html") {
        "text/html"
    } else if text_eq(ext, "js") {
        "application/javascript"
    } else if text_eq(ext, "css") {
        "text/css"
    } else if text_eq(ext, "json") {
        "application/json"
    } else if text_eq(ext, "png") {
        "image/png"
    } else if text_eq(ext, "jpg") || text_eq(ext, "jpeg") {
        "image/jpeg"
    } else if text_eq(ext, "svg") {
        "image/svg+xml"
    } else if text_eq(ext, "ico") {
        "image/x-icon"
    } else if text_eq(ext, "woff") {
        "font/woff"
    } else if text_eq(ext, "woff2") {
        "font/woff2"
    } else if text_eq(ext, "ttf") {
        "font/ttf"
    } else if text_eq(ext, "wasm") {
        "application/wasm"
    } else {
        "application/octet-stream"
    }
}

} // verus!

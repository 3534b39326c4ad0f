//! HTTP response types.

use vstd::prelude::*;

use crate::chars::{has_prefix, starts_with, to_chars};

verus! {

/// Completed HTTP response with buffered body.
pub struct HttpResponse {
    /// The status code.
    pub status: u16,
    /// Raw `Content-Type` header value, if present.
    pub content_type: Option<String>,
    pub body: Vec<u8>,
}

/// The content type is present and starts with `prefix`.
pub open spec fn type_starts_with(ct: Option<String>, prefix: Seq<char>) -> bool {
    match ct {
        Some(t) => has_prefix(t@, prefix),
        None => false,
    }
}

impl HttpResponse {
    /// Returns `true` if `Content-Type` starts with `text/`.
    pub fn is_text(&self) -> (b: bool)
        ensures
            b == type_starts_with(self.content_type, "text/"@),
    {
        match &self.content_type {
            Some(ct) => starts_with(to_chars(ct.as_str()).as_slice(), to_chars("text/").as_slice()),
            None => false,
        }
    }

    /// Returns `true` if `Content-Type` is `text/html`.
    pub fn is_html(&self) -> (b: bool)
        ensures
            b == type_starts_with(self.content_type, "text/html"@),
    {
        match &self.content_type {
            Some(ct) => starts_with(to_chars(ct.as_str()).as_slice(), to_chars("text/html").as_slice()),
            None => false,
        }
    }
}

/// Every HTML response is a text response.
pub proof fn law_html_is_text(ct: Option<String>)
    ensures
        type_starts_with(ct, "text/html"@) ==> type_starts_with(ct, "text/"@),
{
    reveal_strlit("text/html");
    reveal_strlit("text/");
    if let Some(t) = ct {
        if has_prefix(t@, "text/html"@) {
            assert(t@.subrange(0, 5) =~= t@.subrange(0, 9).subrange(0, 5));
            assert("text/html"@.subrange(0, 5) =~= "text/"@);
        }
    }
}

} // verus!

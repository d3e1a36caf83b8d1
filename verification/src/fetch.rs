use vstd::prelude::*;

use crate::text::{starts_with, str_starts_with};

verus! {

/// The content-type gate of the Fetcher: a page body is worth retrieving
/// only when the preliminary response carries a `text/html` Content-Type;
/// an absent header rejects the page.
pub fn html_content_type(content_type: Option<&str>) -> (r: bool)
    ensures
        r == match content_type {
            Some(c) => starts_with(c@, "text/html"@),
            None => false,
        },
{
    match content_type {
        Some(c) => str_starts_with(c, "text/html"),
        None => false,
    }
}

} // verus!

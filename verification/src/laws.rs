use vstd::prelude::*;

use crate::canon::UrlView;
use crate::links::extract_spec;

verus! {

/// The Link Extractor is a function of the document text and the source
/// domain alone: two extractions from identical input yield identical
/// candidate sequences.
pub proof fn lemma_extract_idempotent(
    first: Seq<UrlView>,
    second: Seq<UrlView>,
    html: Seq<char>,
    source_domain: Seq<char>,
)
    requires
        first == extract_spec(html, source_domain),
        second == extract_spec(html, source_domain),
    ensures
        first == second,
{
}

} // verus!

use vstd::prelude::*;
use vstd::string::StringExecFns;

use crate::text::{starts_with, str_starts_with};

verus! {

/// An absolute URL as the crawler stores it: the serialized form together
/// with the components the scheduler reads (host domain and path).
pub struct CanonicalUrl {
    /// The full serialization; two URLs are the same iff these are equal.
    pub url: String,
    /// The host, when it is a named domain (IP-address hosts have none).
    pub domain: Option<String>,
    /// The path component.
    pub path: String,
}

/// Mathematical image of a `CanonicalUrl`.
pub struct UrlView {
    pub url: Seq<char>,
    pub domain: Option<Seq<char>>,
    pub path: Seq<char>,
}

impl View for CanonicalUrl {
    type V = UrlView;

    open spec fn view(&self) -> UrlView {
        UrlView {
            url: self.url@,
            domain: match self.domain {
                Some(d) => Some(d@),
                None => None,
            },
            path: self.path@,
        }
    }
}

impl Clone for CanonicalUrl {
    fn clone(&self) -> (r: Self)
        ensures
            r == *self,
    {
        CanonicalUrl {
            url: self.url.clone(),
            domain: match &self.domain {
                Some(d) => Some(d.clone()),
                None => None,
            },
            path: self.path.clone(),
        }
    }
}

/// The components that parsing an absolute URL yields.
pub struct UrlParts {
    /// The serialization after the stripping that the parse applied.
    pub url: String,
    /// The scheme, lowercased by the parser.
    pub scheme: String,
    /// The host, when it is a named domain.
    pub domain: Option<String>,
    /// The path component.
    pub path: String,
}

/// Mathematical image of `UrlParts`.
pub struct UrlPartsView {
    pub url: Seq<char>,
    pub scheme: Seq<char>,
    pub domain: Option<Seq<char>>,
    pub path: Seq<char>,
}

impl View for UrlParts {
    type V = UrlPartsView;

    open spec fn view(&self) -> UrlPartsView {
        UrlPartsView {
            url: self.url@,
            scheme: self.scheme@,
            domain: match self.domain {
                Some(d) => Some(d@),
                None => None,
            },
            path: self.path@,
        }
    }
}

pub open spec fn opt_parts_view(r: Option<UrlParts>) -> Option<UrlPartsView> {
    match r {
        Some(p) => Some(p@),
        None => None,
    }
}

pub open spec fn opt_url_view(r: Option<CanonicalUrl>) -> Option<UrlView> {
    match r {
        Some(u) => Some(u@),
        None => None,
    }
}

/// `s` has no query or fragment delimiter anywhere in it.
pub open spec fn no_query_or_fragment(s: Seq<char>) -> bool {
    forall|i: int| 0 <= i < s.len() ==> s[i] != '?' && s[i] != '#'
}

/// What parsing `s` and stripping query and fragment yields, or `None` when
/// `s` is not a parseable absolute URL.
pub uninterp spec fn url_canonical(s: Seq<char>) -> Option<UrlPartsView>;

/// What parsing `s` and stripping only the fragment yields, or `None` when
/// `s` is not a parseable absolute URL.
pub uninterp spec fn url_no_fragment(s: Seq<char>) -> Option<UrlPartsView>;

/// Relies on `url::Url::parse` and on the serialization of `url::Url` after
/// `set_query(None)` and `set_fragment(None)`: the parsed URL's components
/// with query and fragment stripped. Parsing is deterministic, so the result
/// is a function of the input string alone; a serialization without query and
/// fragment contains no raw `?` or `#` (both are percent-encoded wherever
/// else they could occur).
#[verifier::external_body]
pub(crate) fn parse_strip_query_fragment(s: &str) -> (r: Option<UrlParts>)
    ensures
        opt_parts_view(r) == url_canonical(s@),
        r matches Some(p) ==> no_query_or_fragment(p.url@),
{
    match url::Url::parse(s) {
        Ok(mut u) => {
            u.set_fragment(None);
            u.set_query(None);
            Some(UrlParts {
                url: u.as_str().to_string(),
                scheme: u.scheme().to_string(),
                domain: u.domain().map(|d| d.to_string()),
                path: u.path().to_string(),
            })
        },
        Err(_) => None,
    }
}

/// Relies on `url::Url::parse` and on the serialization of `url::Url` after
/// `set_fragment(None)`: the parsed URL's components with only the fragment
/// stripped (any query is kept). Deterministic in the input string alone.
#[verifier::external_body]
pub(crate) fn parse_strip_fragment(s: &str) -> (r: Option<UrlParts>)
    ensures
        opt_parts_view(r) == url_no_fragment(s@),
{
    match url::Url::parse(s) {
        Ok(mut u) => {
            u.set_fragment(None);
            Some(UrlParts {
                url: u.as_str().to_string(),
                scheme: u.scheme().to_string(),
                domain: u.domain().map(|d| d.to_string()),
                path: u.path().to_string(),
            })
        },
        Err(_) => None,
    }
}

/// The absolute form a raw href resolves to against a source page on
/// `source_domain`, before parsing; `None` when the href is filtered out
/// (pure fragment, or a scheme other than `https`).
pub open spec fn resolve_href(href: Seq<char>, source_domain: Seq<char>) -> Option<Seq<char>> {
    if starts_with(href, "#"@) {
        None
    } else if starts_with(href, "//"@) {
        Some("https:"@ + href)
    } else if starts_with(href, "/"@) {
        Some("https://"@ + source_domain + href)
    } else if starts_with(href, "https://"@) {
        Some(href)
    } else {
        None
    }
}

/// The canonical URL a raw href denotes on a page of `source_domain`:
/// resolved to absolute form, parsed, query and fragment stripped; `None`
/// when the href is filtered out or fails to parse.
pub open spec fn normalize_spec(href: Seq<char>, source_domain: Seq<char>) -> Option<UrlView> {
    match resolve_href(href, source_domain) {
        Some(abs) => match url_canonical(abs) {
            Some(p) => Some(UrlView { url: p.url, domain: p.domain, path: p.path }),
            None => None,
        },
        None => None,
    }
}

/// Resolves and canonicalizes a raw href found on a page of `source_domain`.
/// A fragment-only href, a non-`https` href, and an unparseable href all
/// yield `None`; the result never carries a query or a fragment.
pub fn normalize(href: &str, source_domain: &str) -> (r: Option<CanonicalUrl>)
    ensures
        opt_url_view(r) == normalize_spec(href@, source_domain@),
        r matches Some(u) ==> no_query_or_fragment(u.url@),
{
    if str_starts_with(href, "#") {
        return None;
    }
    let absolute: String = if str_starts_with(href, "//") {
        let mut t = String::from_str("https:");
        t.append(href);
        t
    } else if str_starts_with(href, "/") {
        let mut t = String::from_str("https://");
        t.append(source_domain);
        t.append(href);
        t
    } else if str_starts_with(href, "https://") {
        String::from_str(href)
    } else {
        return None;
    };
    assert(resolve_href(href@, source_domain@) == Some(absolute@));
    match parse_strip_query_fragment(absolute.as_str()) {
        Some(p) => Some(CanonicalUrl { url: p.url, domain: p.domain, path: p.path }),
        None => None,
    }
}

} // verus!

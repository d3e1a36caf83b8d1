use vstd::prelude::*;
use vstd::string::StringExecFns;

use crate::canon::{
    no_query_or_fragment, normalize, normalize_spec, opt_url_view, CanonicalUrl, UrlView,
};

verus! {

/// One hyperlink-bearing element as it stands in a document: its `href` and
/// `rel` attributes, either possibly absent.
pub struct RawLink {
    pub href: Option<String>,
    pub rel: Option<String>,
}

/// Mathematical image of a `RawLink`.
pub struct RawLinkView {
    pub href: Option<Seq<char>>,
    pub rel: Option<Seq<char>>,
}

impl View for RawLink {
    type V = RawLinkView;

    open spec fn view(&self) -> RawLinkView {
        RawLinkView {
            href: match self.href {
                Some(h) => Some(h@),
                None => None,
            },
            rel: match self.rel {
                Some(r) => Some(r@),
                None => None,
            },
        }
    }
}

/// The href and rel attributes of the anchor, area and link elements under
/// the body of the document that `html` parses to, in document order.
pub uninterp spec fn doc_links(html: Seq<char>) -> Seq<RawLinkView>;

/// Relies on `scraper::Html::parse_document` and `scraper::Selector`: the
/// href and rel attributes of the document's `body a`, `body area` and
/// `body link` elements, in document order. Parsing and selection are
/// deterministic, so the result is a function of the document text alone.
#[verifier::external_body]
fn select_links(html: &str) -> (r: Vec<RawLink>)
    ensures
        r@.map_values(|l: RawLink| l@) == doc_links(html@),
{
    let document = scraper::Html::parse_document(html);
    let selector = scraper::Selector::parse("body a, body area, body link").unwrap();
    document
        .select(&selector)
        .map(|el| RawLink {
            href: el.value().attr("href").map(|a| a.to_string()),
            rel: el.value().attr("rel").map(|a| a.to_string()),
        })
        .collect()
}

/// The canonical URL one document link contributes: none when it has no
/// href, none when it is a stylesheet reference, otherwise whatever its href
/// normalizes to against the source page's domain.
pub open spec fn link_candidate(l: RawLinkView, source_domain: Seq<char>) -> Option<UrlView> {
    match l.href {
        Some(h) => {
            if l.rel == Some("stylesheet"@) {
                None
            } else {
                normalize_spec(h, source_domain)
            }
        },
        None => None,
    }
}

/// The candidate URLs of a sequence of document links, in order, with
/// filtered-out links dropped.
pub open spec fn links_spec(ls: Seq<RawLinkView>, source_domain: Seq<char>) -> Seq<UrlView>
    decreases ls.len(),
{
    if ls.len() == 0 {
        Seq::empty()
    } else {
        let rest = links_spec(ls.drop_first(), source_domain);
        match link_candidate(ls.first(), source_domain) {
            Some(u) => seq![u] + rest,
            None => rest,
        }
    }
}

/// What the Link Extractor yields on a document fetched from a page of
/// `source_domain`: the candidates of its links, in document order.
pub open spec fn extract_spec(html: Seq<char>, source_domain: Seq<char>) -> Seq<UrlView> {
    links_spec(doc_links(html), source_domain)
}

/// `links_spec` distributes over concatenation.
proof fn lemma_links_spec_add(a: Seq<RawLinkView>, b: Seq<RawLinkView>, d: Seq<char>)
    ensures
        links_spec(a + b, d) == links_spec(a, d) + links_spec(b, d),
    decreases a.len(),
{
    if a.len() == 0 {
        assert(a + b =~= b);
        assert(links_spec(a, d) + links_spec(b, d) =~= links_spec(b, d));
    } else {
        lemma_links_spec_add(a.drop_first(), b, d);
        assert((a + b).drop_first() =~= a.drop_first() + b);
        assert((a + b).first() == a.first());
        match link_candidate(a.first(), d) {
            Some(u) => {
                assert(seq![u] + (links_spec(a.drop_first(), d) + links_spec(b, d)) =~= (seq![u]
                    + links_spec(a.drop_first(), d)) + links_spec(b, d));
            },
            None => {},
        }
    }
}

/// Parses a document fetched from a page of `source_domain` and returns the
/// canonical URLs of its body's hyperlinks, in document order, stylesheet
/// references and filtered hrefs dropped. The result is a function of the
/// two inputs alone, so extracting twice from the same input yields the same
/// sequence; no returned URL carries a query or a fragment.
pub fn extract_links(html: &str, source_domain: &str) -> (r: Vec<CanonicalUrl>)
    ensures
        r@.map_values(|u: CanonicalUrl| u@) == extract_spec(html@, source_domain@),
        forall|k: int| 0 <= k < r@.len() ==> no_query_or_fragment(r@[k].url@),
{
    let raw = select_links(html);
    let ghost s = raw@.map_values(|l: RawLink| l@);
    let sty = String::from_str("stylesheet");
    let mut out: Vec<CanonicalUrl> = Vec::new();
    let mut i: usize = 0;
    while i < raw.len()
        invariant
            i <= raw.len(),
            s == raw@.map_values(|l: RawLink| l@),
            s == doc_links(html@),
            sty@ == "stylesheet"@,
            out@.map_values(|u: CanonicalUrl| u@) == links_spec(s.take(i as int), source_domain@),
            forall|k: int| 0 <= k < out@.len() ==> no_query_or_fragment(out@[k].url@),
        decreases raw.len() - i,
    {
        let l = &raw[i];
        let cand: Option<CanonicalUrl> = match &l.href {
            Some(h) => {
                let is_stylesheet = match &l.rel {
                    Some(rel) => *rel == sty,
                    None => false,
                };
                if is_stylesheet {
                    None
                } else {
                    normalize(h.as_str(), source_domain)
                }
            },
            None => None,
        };
        proof {
            reveal_with_fuel(links_spec, 2);
            assert(s[i as int] == raw@[i as int]@);
            assert(opt_url_view(cand) == link_candidate(s[i as int], source_domain@));
            assert(s.take(i as int + 1) =~= s.take(i as int) + seq![s[i as int]]);
            lemma_links_spec_add(s.take(i as int), seq![s[i as int]], source_domain@);
            assert(seq![s[i as int]].drop_first() =~= Seq::<RawLinkView>::empty());
            assert(seq![s[i as int]].first() == s[i as int]);
        }
        match cand {
            Some(u) => {
                proof {
                    match link_candidate(s[i as int], source_domain@) {
                        Some(v) => {
                            assert(links_spec(seq![s[i as int]], source_domain@) =~= seq![v]);
                            assert(out@.push(u).map_values(|x: CanonicalUrl| x@) =~= out@.map_values(
                                |x: CanonicalUrl| x@,
                            ) + seq![u@]);
                        },
                        None => {},
                    }
                }
                out.push(u);
            },
            None => {
                proof {
                    assert(links_spec(seq![s[i as int]], source_domain@) =~= Seq::<
                        UrlView,
                    >::empty());
                    assert(links_spec(s.take(i as int), source_domain@) + Seq::<UrlView>::empty()
                        =~= links_spec(s.take(i as int), source_domain@));
                }
            },
        }
        i += 1;
    }
    proof {
        assert(s.take(raw.len() as int) =~= s);
    }
    out
}

} // verus!

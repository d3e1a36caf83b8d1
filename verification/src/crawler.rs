use vstd::prelude::*;

use std::collections::VecDeque;

use crate::canon::{no_query_or_fragment, parse_strip_fragment, url_no_fragment, CanonicalUrl};
use crate::domain::{
    dom_count, dom_find, dom_policy, find_domain, lemma_dom_find_first, lemma_dom_find_none_inv,
    lemma_dom_find_push, lemma_dom_find_update, DomainState,
};
use crate::links::{extract_links, extract_spec};
use crate::robots::{
    policy_allows, resolve_policy, resolve_policy_spec, robots_txt_url, robots_url_spec,
    RobotsMode, RobotsPolicy,
};
use crate::canon::UrlView;

verus! {

/// Default per-domain ceiling on successful fetches.
pub const DEFAULT_DOMAIN_LIMIT: usize = 256;

/// Default global ceiling on successful fetches: effectively unbounded.
pub const DEFAULT_GLOBAL_LIMIT: usize = usize::MAX;

/// The scheduling discipline of the frontier.
#[derive(Clone, Copy)]
pub enum Discipline {
    /// Batch per domain: pull the head domain's queued URLs into a stack and
    /// drain it, newest first, before returning to the main frontier.
    DomainBatched,
    /// One global queue, strictly first-in first-out.
    GlobalFifo,
}

/// The outstanding unit of outside work, remembered between `next` and the
/// `provide_*` call that answers it.
pub enum Pending {
    /// Nothing outstanding; `next` may be called.
    Idle,
    /// Waiting for the robots.txt body of the domain at index `i`.
    Robots { i: usize },
    /// Waiting for the body of a seed page.
    Seed { url: CanonicalUrl },
    /// Waiting for the body of a discovered page.
    Page { url: CanonicalUrl },
}

/// What the crawl needs next from the outside.
#[allow(inconsistent_fields)]
pub enum Request {
    /// Fetch this robots.txt URL (`Accept: text/plain`) and answer through
    /// `provide_robots`.
    FetchRobots { url: String },
    /// Fetch this page (`Accept: text/html`, content-type gated) and answer
    /// through `provide_page`.
    FetchPage { url: CanonicalUrl },
    /// The run is over: seeds and queues exhausted, or global ceiling
    /// reached.
    Done,
}

/// `x` occurs among the strings of `v`.
pub open spec fn seq_has_str(v: Seq<String>, x: Seq<char>) -> bool {
    exists|i: int| 0 <= i < v.len() && v[i]@ == x
}

/// Membership test of a string in a vector of strings.
fn contains_str(v: &Vec<String>, x: &String) -> (r: bool)
    ensures
        r == seq_has_str(v@, x@),
{
    let mut i: usize = 0;
    while i < v.len()
        invariant
            i <= v@.len(),
            forall|j: int| 0 <= j < i ==> (#[trigger] v@[j])@ != x@,
        decreases v@.len() - i,
    {
        if v[i] == *x {
            proof {
                assert(v@[i as int]@ == x@);
            }
            return true;
        }
        i += 1;
    }
    false
}

/// A string once among `v` is still there after a push.
pub proof fn lemma_seq_has_str_push(v: Seq<String>, x: String, u: Seq<char>)
    ensures
        seq_has_str(v, u) ==> seq_has_str(v.push(x), u),
{
    if seq_has_str(v, u) {
        let i = choose|i: int| 0 <= i < v.len() && v[i]@ == u;
        assert(v.push(x)[i]@ == u);
    }
}

/// A value in a sequence survives removing the first element, unless it was
/// that element's only occurrence.
proof fn lemma_contains_pop_front(a: Seq<CanonicalUrl>, u: CanonicalUrl)
    requires
        a.len() > 0,
        a.contains(u),
        u != a[0],
    ensures
        a.subrange(1, a.len() as int).contains(u),
{
    let j = choose|j: int| 0 <= j < a.len() && a[j] == u;
    assert(a.subrange(1, a.len() as int)[j - 1] == u);
}

/// A value in a sequence survives removing the last element, unless it was
/// that element's only occurrence.
proof fn lemma_contains_pop_back(a: Seq<CanonicalUrl>, u: CanonicalUrl)
    requires
        a.len() > 0,
        a.contains(u),
        u != a[a.len() - 1],
    ensures
        a.subrange(0, a.len() as int - 1).contains(u),
{
    let j = choose|j: int| 0 <= j < a.len() && a[j] == u;
    assert(a.subrange(0, a.len() as int - 1)[j] == u);
}

/// A value in a sequence is still there after a push.
proof fn lemma_contains_push(a: Seq<CanonicalUrl>, x: CanonicalUrl, u: CanonicalUrl)
    requires
        a.contains(u),
    ensures
        a.push(x).contains(u),
{
    let j = choose|j: int| 0 <= j < a.len() && a[j] == u;
    assert(a.push(x)[j] == u);
}

/// A value in a sequence is still there after prepending an element.
proof fn lemma_contains_push_front(a: Seq<CanonicalUrl>, x: CanonicalUrl, u: CanonicalUrl)
    requires
        a.contains(u),
    ensures
        (seq![x] + a).contains(u),
{
    let j = choose|j: int| 0 <= j < a.len() && a[j] == u;
    assert((seq![x] + a)[j + 1] == u);
}

/// A value inside a subrange is in the full sequence.
proof fn lemma_subrange_contains(a: Seq<CanonicalUrl>, lo: int, hi: int, u: CanonicalUrl)
    requires
        0 <= lo <= hi <= a.len(),
        a.subrange(lo, hi).contains(u),
    ensures
        a.contains(u),
{
    let j = choose|j: int| 0 <= j < hi - lo && a.subrange(lo, hi)[j] == u;
    assert(a[j + lo] == u);
}

/// After the candidate is put back, everything queued was queued before the
/// candidate was taken out.
proof fn lemma_origin_after_pushback(
    pre: Crawler,
    cur: Crawler,
    cand: CanonicalUrl,
    from_batch: bool,
    bmid: Seq<CanonicalUrl>,
    fmid: Seq<CanonicalUrl>,
)
    requires
        from_batch ==> pre.batch@.len() > 0 && cand == pre.batch@[pre.batch@.len() - 1] && bmid
            == pre.batch@.subrange(0, pre.batch@.len() - 1) && fmid == pre.frontier@,
        !from_batch ==> pre.frontier@.len() > 0 && cand == pre.frontier@[0] && fmid
            == pre.frontier@.subrange(1, pre.frontier@.len() as int) && bmid == pre.batch@,
        (cur.batch@ == bmid.push(cand) && cur.frontier@ == fmid) || (cur.frontier@ == seq![cand]
            + fmid && cur.batch@ == bmid),
    ensures
        forall|u: CanonicalUrl| #[trigger] cur.still_queued(u) ==> pre.still_queued(u),
{
    assert forall|u: CanonicalUrl| #[trigger] cur.still_queued(u) implies pre.still_queued(u) by {
        if u == cand {
            if from_batch {
                assert(pre.batch@.contains(cand));
            } else {
                assert(pre.frontier@.contains(cand));
            }
        } else {
            if cur.batch@.contains(u) {
                let j = choose|j: int| 0 <= j < cur.batch@.len() && cur.batch@[j] == u;
                if cur.batch@ == bmid.push(cand) {
                    assert(bmid[j] == u);
                } else {
                    assert(bmid[j] == u);
                }
                if from_batch {
                    lemma_subrange_contains(pre.batch@, 0, pre.batch@.len() - 1, u);
                }
            }
            if cur.frontier@.contains(u) {
                let j = choose|j: int| 0 <= j < cur.frontier@.len() && cur.frontier@[j] == u;
                if cur.frontier@ == seq![cand] + fmid {
                    assert(fmid[j - 1] == u);
                } else {
                    assert(fmid[j] == u);
                }
                if !from_batch {
                    lemma_subrange_contains(pre.frontier@, 1, pre.frontier@.len() as int, u);
                }
            }
        }
    }
}

/// `v` is what the seed line `seed` parses to once its fragment is stripped.
pub open spec fn seed_parses_to(seed: Seq<char>, v: UrlView) -> bool {
    match url_no_fragment(seed) {
        Some(p) => v.url == p.url && v.domain == p.domain && v.path == p.path,
        None => false,
    }
}

/// Of the candidate URLs `ls`, those not yet in `visited` that stay on the
/// open batch domain `bd`, in order.
pub open spec fn batch_bound(ls: Seq<UrlView>, visited: Seq<String>, bd: Option<Seq<char>>) -> Seq<
    UrlView,
> {
    ls.filter(|u: UrlView| !seq_has_str(visited, u.url) && bd is Some && u.domain == bd)
}

/// Of the candidate URLs `ls`, those not yet in `visited` that do not stay
/// on the open batch domain `bd` (all new ones when no batch is open), in
/// order.
pub open spec fn frontier_bound(
    ls: Seq<UrlView>,
    visited: Seq<String>,
    bd: Option<Seq<char>>,
) -> Seq<UrlView> {
    ls.filter(|u: UrlView| !seq_has_str(visited, u.url) && !(bd is Some && u.domain == bd))
}

/// The crawl orchestration state: visited set, frontier, per-domain states
/// and counters, owned by one scheduler. Outside work (every network fetch)
/// is requested through `next` and answered through `provide_robots` and
/// `provide_page`.
pub struct Crawler {
    /// Scheduling discipline, fixed per run.
    pub discipline: Discipline,
    /// Handling of unreachable robots.txt, fixed per run.
    pub robots_mode: RobotsMode,
    /// Ceiling on successful fetches per domain.
    pub domain_limit: usize,
    /// Ceiling on successful fetches over the whole running phase.
    pub global_limit: usize,
    /// The user-agent identity robots rules are compiled for.
    pub agent: String,
    /// Seed URLs not yet dispatched.
    pub seeds: VecDeque<String>,
    /// Serializations of every URL ever dispatched for fetch; grows, never
    /// shrinks.
    pub visited: Vec<String>,
    /// Discovered URLs awaiting fetch. It may hold the same URL twice:
    /// discoveries are deduplicated against the visited set alone, and
    /// membership is checked again when a URL is taken out.
    pub frontier: VecDeque<CanonicalUrl>,
    /// The open per-domain stack of the domain-batched discipline; its top
    /// is the end.
    pub batch: Vec<CanonicalUrl>,
    /// The domain the open stack belongs to.
    pub batch_domain: Option<String>,
    /// Per-domain fetch counts and robots policies.
    pub domains: Vec<DomainState>,
    /// Successful fetches during the running phase.
    pub fetched: usize,
    /// The outstanding unit of outside work.
    pub pending: Pending,
}

impl Crawler {
    /// Structural soundness: queued URLs are canonical (no query or
    /// fragment), the open stack belongs to its domain, and the outstanding
    /// request is consistent with the rest of the state.
    pub open spec fn wf(self) -> bool {
        &&& forall|i: int|
            0 <= i < self.frontier@.len() ==> no_query_or_fragment(
                (#[trigger] self.frontier@[i])@.url,
            )
        &&& forall|i: int|
            0 <= i < self.batch@.len() ==> no_query_or_fragment((#[trigger] self.batch@[i])@.url)
        &&& match self.batch_domain {
            Some(d) => forall|i: int|
                0 <= i < self.batch@.len() ==> (#[trigger] self.batch@[i])@.domain == Some(d@),
            None => self.batch@.len() == 0,
        }
        &&& (self.discipline is GlobalFifo ==> self.batch@.len() == 0 && self.batch_domain
            is None)
        &&& match self.pending {
            Pending::Idle => true,
            Pending::Robots { i } => i < self.domains@.len() && self.domains@[i as int].policy
                is None && (forall|j: int|
                0 <= j < i ==> (#[trigger] self.domains@[j]).domain@ != self.domains@[
                    i as int
                ].domain@),
            Pending::Seed { url } => url@.domain is Some,
            Pending::Page { url } => url@.domain is Some && (match dom_find(
                self.domains@,
                url@.domain->Some_0,
            ) {
                Some(st) => (st.fetched as int) < self.domain_limit as int,
                None => false,
            }) && self.fetched < self.global_limit,
        }
    }

    /// The run-wide configuration of `self` and `other` agree.
    pub open spec fn same_config(self, other: Crawler) -> bool {
        &&& self.discipline == other.discipline
        &&& self.robots_mode == other.robots_mode
        &&& self.domain_limit == other.domain_limit
        &&& self.global_limit == other.global_limit
        &&& self.agent@ == other.agent@
    }

    /// The domain of the open per-domain stack, if the discipline keeps one.
    pub open spec fn open_batch_domain(self) -> Option<Seq<char>> {
        if self.discipline is DomainBatched {
            match self.batch_domain {
                Some(d) => Some(d@),
                None => None,
            }
        } else {
            None
        }
    }

    /// `u` still awaits fetch in the frontier or the open stack.
    pub open spec fn still_queued(self, u: CanonicalUrl) -> bool {
        self.frontier@.contains(u) || self.batch@.contains(u)
    }

    /// Dropping `u` from consideration is justified: it was already
    /// dispatched once, it has no domain, its domain's budget is exhausted,
    /// or its domain's policy denies it.
    pub open spec fn justified_drop(self, u: CanonicalUrl) -> bool {
        ||| seq_has_str(self.visited@, u@.url)
        ||| u@.domain is None
        ||| (match u@.domain {
            Some(d) => dom_count(self.domains@, d) >= self.domain_limit as int,
            None => false,
        })
        ||| (match u@.domain {
            Some(d) => match dom_policy(self.domains@, d) {
                Some(p) => !policy_allows(p@, self.robots_mode, self.agent@, u@.url),
                None => false,
            },
            None => false,
        })
    }

    /// Every unit of work is accounted for: still queued, or dropped for one
    /// of the admissible reasons.
    pub open spec fn kept_or_justified(self, u: CanonicalUrl) -> bool {
        self.still_queued(u) || self.justified_drop(u)
    }

    /// Creates a crawler over the given seed list, with nothing visited,
    /// queued or counted yet.
    pub fn new(
        discipline: Discipline,
        robots_mode: RobotsMode,
        domain_limit: usize,
        global_limit: usize,
        agent: String,
        seeds: Vec<String>,
    ) -> (r: Crawler)
        ensures
            r.wf(),
            r.pending is Idle,
            r.discipline == discipline,
            r.robots_mode == robots_mode,
            r.domain_limit == domain_limit,
            r.global_limit == global_limit,
            r.agent@ == agent@,
            r.seeds@ == seeds@,
            r.visited@.len() == 0,
            r.frontier@.len() == 0,
            r.batch@.len() == 0,
            r.domains@.len() == 0,
            r.fetched == 0,
    {
        let ghost all = seeds@;
        let mut q: VecDeque<String> = VecDeque::new();
        let mut s = seeds;
        while s.len() > 0
        invariant
                q@ + s@ == all,
            decreases s@.len(),
        {
            let ghost q0 = q@;
            let ghost s0 = s@;
            let x = s.remove(0);
            q.push_back(x);
            proof {
                assert(q@ =~= q0.push(s0[0]));
                assert(s@ =~= s0.subrange(1, s0.len() as int));
                assert(q@ + s@ =~= q0 + s0);
            }
        }
        proof {
            assert(q@ + s@ =~= q@);
        }
        Crawler {
            discipline,
            robots_mode,
            domain_limit,
            global_limit,
            agent,
            seeds: q,
            visited: Vec::new(),
            frontier: VecDeque::new(),
            batch: Vec::new(),
            batch_domain: None,
            domains: Vec::new(),
            fetched: 0,
            pending: Pending::Idle,
        }
    }

    /// Answers the last `FetchRobots` request: `body` is the fetched
    /// robots.txt text, or `None` when the fetch failed. The pending
    /// domain's policy becomes the retrieved rules, or the robots mode's
    /// stand-in; already-resolved policies, counts, queues and the visited
    /// set are untouched.
    pub fn provide_robots(&mut self, body: Option<String>)
        requires
            old(self).wf(),
            old(self).pending matches Pending::Robots { .. },
        ensures
            final(self).wf(),
            final(self).pending is Idle,
            final(self).same_config(*old(self)),
            final(self).visited@ == old(self).visited@,
            final(self).frontier@ == old(self).frontier@,
            final(self).batch@ == old(self).batch@,
            final(self).batch_domain == old(self).batch_domain,
            final(self).seeds@ == old(self).seeds@,
            final(self).fetched == old(self).fetched,
            forall|d: Seq<char>| #![auto]
                dom_count(final(self).domains@, d) == dom_count(old(self).domains@, d),
            forall|d: Seq<char>| #![auto]
                dom_policy(old(self).domains@, d) is Some ==> dom_policy(final(self).domains@, d)
                    == dom_policy(old(self).domains@, d),
            old(self).pending matches Pending::Robots { i } ==> (dom_policy(
                final(self).domains@,
                old(self).domains@[i as int].domain@,
            ) matches Some(p) && p@ == resolve_policy_spec(
                old(self).robots_mode,
                body.deep_view(),
            )),
    {
        let i: usize = match &self.pending {
            Pending::Robots { i } => *i,
            _ => {
                proof {
                    assert(false);
                }
                0
            },
        };
        let p = resolve_policy(self.robots_mode, body);
        let st = &self.domains[i];
        let upd = DomainState {
            domain: st.domain.clone(),
            fetched: st.fetched,
            policy: Some(p),
        };
        proof {
            lemma_dom_find_first(self.domains@, i as int);
            lemma_dom_find_update(self.domains@, i as int, upd);
        }
        self.domains.set(i, upd);
        self.pending = Pending::Idle;
    }

    /// Answers the last `FetchPage` request: `body` is the page text, or
    /// `None` when the fetch failed or was rejected by content-type gating.
    /// On success the page's links are extracted and every candidate not
    /// yet visited is enqueued: onto the still-open per-domain stack when it
    /// stays on that domain, otherwise onto the main frontier; a
    /// running-phase page also advances its domain's count and the global
    /// count. On failure nothing changes: the URL was marked visited when
    /// dispatched and is never retried.
    pub fn provide_page(&mut self, body: Option<String>)
        requires
            old(self).wf(),
            old(self).pending matches Pending::Seed { .. } || old(self).pending
                matches Pending::Page { .. },
        ensures
            final(self).wf(),
            final(self).pending is Idle,
            final(self).same_config(*old(self)),
            final(self).visited@ == old(self).visited@,
            final(self).seeds@ == old(self).seeds@,
            final(self).batch_domain == old(self).batch_domain,
            forall|d: Seq<char>| #![auto]
                dom_policy(final(self).domains@, d) == dom_policy(old(self).domains@, d),
            match old(self).pending {
                Pending::Page { url } => match body {
                    Some(_) => {
                        &&& final(self).fetched == old(self).fetched + 1
                        &&& dom_count(final(self).domains@, url@.domain->Some_0) == dom_count(
                            old(self).domains@,
                            url@.domain->Some_0,
                        ) + 1
                        &&& forall|d: Seq<char>|
                            d != url@.domain->Some_0 ==> #[trigger] dom_count(
                                final(self).domains@,
                                d,
                            ) == dom_count(old(self).domains@, d)
                    },
                    None => final(self).fetched == old(self).fetched && final(self).domains@ == old(self).domains@,
                },
                _ => final(self).fetched == old(self).fetched && final(self).domains@ == old(self).domains@,
            },
            match old(self).pending {
                Pending::Seed { url } => match body {
                    Some(b) => {
                        &&& final(self).batch@ == old(self).batch@
                        &&& final(self).frontier@.map_values(|u: CanonicalUrl| u@) == old(self).frontier@.map_values(|u: CanonicalUrl| u@) + frontier_bound(
                            extract_spec(b@, url@.domain->Some_0),
                            old(self).visited@,
                            None,
                        )
                    },
                    None => final(self).frontier@ == old(self).frontier@ && final(self).batch@
                        == old(self).batch@,
                },
                Pending::Page { url } => match body {
                    Some(b) => {
                        &&& final(self).batch@.map_values(|u: CanonicalUrl| u@) == old(self).batch@.map_values(|u: CanonicalUrl| u@) + batch_bound(
                            extract_spec(b@, url@.domain->Some_0),
                            old(self).visited@,
                            old(self).open_batch_domain(),
                        )
                        &&& final(self).frontier@.map_values(|u: CanonicalUrl| u@) == old(self).frontier@.map_values(|u: CanonicalUrl| u@) + frontier_bound(
                            extract_spec(b@, url@.domain->Some_0),
                            old(self).visited@,
                            old(self).open_batch_domain(),
                        )
                    },
                    None => final(self).frontier@ == old(self).frontier@ && final(self).batch@
                        == old(self).batch@,
                },
                _ => true,
            },
    {
        let (url, is_seed): (CanonicalUrl, bool) = match &self.pending {
            Pending::Seed { url } => (url.clone(), true),
            Pending::Page { url } => (url.clone(), false),
            _ => {
                proof {
                    assert(false);
                }
                (CanonicalUrl { url: String::new(), domain: None, path: String::new() }, false)
            },
        };
        self.pending = Pending::Idle;
        let b: String = match body {
            Some(b) => b,
            None => {
                return ;
            },
        };
        if !is_seed {
            let dref: &String = url.domain.as_ref().unwrap();
            let iopt = find_domain(&self.domains, dref);
            let i = iopt.unwrap();
            let st = &self.domains[i];
            let upd = DomainState {
                domain: st.domain.clone(),
                fetched: st.fetched + 1,
                policy: match &st.policy {
                    Some(p) => Some(p.clone()),
                    None => None,
                },
            };
            proof {
                assert(upd.policy == self.domains@[i as int].policy);
                lemma_dom_find_update(self.domains@, i as int, upd);
            }
            self.domains.set(i, upd);
            self.fetched = self.fetched + 1;
        }
        let ghost srcd = url@.domain->Some_0;
        let dref: &String = url.domain.as_ref().unwrap();
        let links = extract_links(b.as_str(), dref.as_str());
        let ghost lv = extract_spec(b@, srcd);
        let ghost bd: Option<Seq<char>> = if is_seed {
            None
        } else {
            old(self).open_batch_domain()
        };
        let ghost vis = self.visited@;
        let ghost f0 = self.frontier@;
        let ghost b0 = self.batch@;
        let ghost d1 = self.domains@;
        let ghost n1 = self.fetched;
        proof {
            reveal_with_fuel(Seq::<_>::filter, 2);
            assert(lv.take(0) =~= Seq::<UrlView>::empty());
            assert(self.batch@.map_values(|u: CanonicalUrl| u@) + batch_bound(lv.take(0), vis, bd)
                =~= self.batch@.map_values(|u: CanonicalUrl| u@));
            assert(self.frontier@.map_values(|u: CanonicalUrl| u@) + frontier_bound(
                lv.take(0),
                vis,
                bd,
            ) =~= self.frontier@.map_values(|u: CanonicalUrl| u@));
        }
        let mut k: usize = 0;
        while k < links.len()
            invariant
                k <= links@.len(),
                links@.map_values(|u: CanonicalUrl| u@) == lv,
                forall|j: int| 0 <= j < links@.len() ==> no_query_or_fragment(
                    (#[trigger] links@[j])@.url,
                ),
                self.visited@ == vis,
                self.domains@ == d1,
                self.fetched == n1,
                self.seeds@ == old(self).seeds@,
                self.pending is Idle,
                self.batch_domain == old(self).batch_domain,
                self.discipline == old(self).discipline,
                self.robots_mode == old(self).robots_mode,
                self.domain_limit == old(self).domain_limit,
                self.global_limit == old(self).global_limit,
                self.agent@ == old(self).agent@,
                bd == (if is_seed { None } else { old(self).open_batch_domain() }),
                is_seed ==> self.batch@ == b0,
                self.batch@.map_values(|u: CanonicalUrl| u@) == b0.map_values(
                    |u: CanonicalUrl| u@,
                ) + batch_bound(lv.take(k as int), vis, bd),
                self.frontier@.map_values(|u: CanonicalUrl| u@) == f0.map_values(
                    |u: CanonicalUrl| u@,
                ) + frontier_bound(lv.take(k as int), vis, bd),
                forall|j: int| 0 <= j < self.frontier@.len() ==> no_query_or_fragment(
                    (#[trigger] self.frontier@[j])@.url,
                ),
                forall|j: int| 0 <= j < self.batch@.len() ==> no_query_or_fragment(
                    (#[trigger] self.batch@[j])@.url,
                ),
                match self.batch_domain {
                    Some(d) => forall|j: int|
                        0 <= j < self.batch@.len() ==> (#[trigger] self.batch@[j])@.domain == Some(
                            d@,
                        ),
                    None => self.batch@.len() == 0,
                },
                self.discipline is GlobalFifo ==> self.batch@.len() == 0 && self.batch_domain
                    is None,
            decreases links@.len() - k,
        {
            let ghost bpre_links = self.batch@;
            let ghost fpre_links = self.frontier@;
            let u = links[k].clone();
            proof {
                reveal_with_fuel(Seq::<_>::filter, 2);
                assert(u@ == lv[k as int]);
                assert(lv.take(k as int + 1).drop_last() =~= lv.take(k as int));
                assert(lv.take(k as int + 1).last() == lv[k as int]);
            }
            let visited_already = contains_str(&self.visited, &u.url);
            if !visited_already {
                let to_batch: bool = if is_seed {
                    false
                } else {
                    match (&self.batch_domain, &u.domain) {
                        (Some(a), Some(x)) => *x == *a,
                        _ => false,
                    }
                };
                proof {
                    assert(to_batch == (bd is Some && lv[k as int].domain == bd));
                }
                if to_batch {
                    self.batch.push(u);
                    proof {
                        reveal_with_fuel(Seq::<_>::filter, 2);
                        assert(batch_bound(lv.take(k as int + 1), vis, bd) == batch_bound(
                            lv.take(k as int),
                            vis,
                            bd,
                        ).push(lv[k as int]));
                        assert(frontier_bound(lv.take(k as int + 1), vis, bd) == frontier_bound(
                            lv.take(k as int),
                            vis,
                            bd,
                        ));
                        assert(self.batch@.map_values(|w: CanonicalUrl| w@) =~= bpre_links.map_values(
                            |w: CanonicalUrl| w@,
                        ).push(lv[k as int]));
                        assert(b0.map_values(|w: CanonicalUrl| w@) + batch_bound(
                            lv.take(k as int + 1),
                            vis,
                            bd,
                        ) =~= (b0.map_values(|w: CanonicalUrl| w@) + batch_bound(
                            lv.take(k as int),
                            vis,
                            bd,
                        )).push(lv[k as int]));
                    }
                } else {
                    self.frontier.push_back(u);
                    proof {
                        reveal_with_fuel(Seq::<_>::filter, 2);
                        assert(frontier_bound(lv.take(k as int + 1), vis, bd) == frontier_bound(
                            lv.take(k as int),
                            vis,
                            bd,
                        ).push(lv[k as int]));
                        assert(batch_bound(lv.take(k as int + 1), vis, bd) == batch_bound(
                            lv.take(k as int),
                            vis,
                            bd,
                        ));
                        assert(self.frontier@.map_values(|w: CanonicalUrl| w@) =~= fpre_links.map_values(
                            |w: CanonicalUrl| w@,
                        ).push(lv[k as int]));
                        assert(f0.map_values(|w: CanonicalUrl| w@) + frontier_bound(
                            lv.take(k as int + 1),
                            vis,
                            bd,
                        ) =~= (f0.map_values(|w: CanonicalUrl| w@) + frontier_bound(
                            lv.take(k as int),
                            vis,
                            bd,
                        )).push(lv[k as int]));
                    }
                }
            } else {
                proof {
                    reveal_with_fuel(Seq::<_>::filter, 2);
                    assert(batch_bound(lv.take(k as int + 1), vis, bd) == batch_bound(
                        lv.take(k as int),
                        vis,
                        bd,
                    ));
                    assert(frontier_bound(lv.take(k as int + 1), vis, bd) == frontier_bound(
                        lv.take(k as int),
                        vis,
                        bd,
                    ));
                }
            }
            k += 1;
        }
        proof {
            assert(lv.take(links@.len() as int) =~= lv);
        }
    }

    /// Advances the crawl to its next unit of outside work. Seeds are
    /// dispatched first, in order, without robots or budget checks (the
    /// initialization phase); then queued URLs are selected by the
    /// discipline. A URL is dispatched only when it was never dispatched
    /// before, its domain's policy is resolved and allows it, its domain's
    /// budget is not exhausted, and the global ceiling is not reached; a URL
    /// failing one of those checks is dropped, and a URL of an unresolved
    /// domain triggers a robots.txt request instead. Every queued URL is
    /// accounted for: still queued afterwards, dispatched (now visited), or
    /// dropped for one of the admissible reasons.
    pub fn next(&mut self) -> (r: Request)
        requires
            old(self).wf(),
            old(self).pending is Idle,
        ensures
            final(self).wf(),
            final(self).same_config(*old(self)),
            final(self).fetched == old(self).fetched,
            old(self).visited@.is_prefix_of(final(self).visited@),
            forall|d: Seq<char>| #![auto]
                dom_count(final(self).domains@, d) == dom_count(old(self).domains@, d),
            forall|d: Seq<char>| #![auto]
                dom_policy(final(self).domains@, d) == dom_policy(old(self).domains@, d),
            forall|i: int|
                0 <= i < old(self).frontier@.len() ==> final(self).kept_or_justified(
                    #[trigger] old(self).frontier@[i],
                ),
            forall|i: int|
                0 <= i < old(self).batch@.len() ==> final(self).kept_or_justified(
                    #[trigger] old(self).batch@[i],
                ),
            match r {
                Request::Done => {
                    &&& final(self).pending is Idle
                    &&& final(self).visited@ == old(self).visited@
                    &&& final(self).seeds@.len() == 0
                    &&& (final(self).fetched >= final(self).global_limit || (
                    final(self).frontier@.len() == 0 && final(self).batch@.len() == 0))
                },
                Request::FetchRobots { url } => {
                    &&& final(self).visited@ == old(self).visited@
                    &&& final(self).pending matches Pending::Robots { i } && i < final(self).domains@.len() && url@ == robots_url_spec(
                        final(self).domains@[i as int].domain@,
                    ) && final(self).domains@[i as int].policy is None && dom_policy(
                        old(self).domains@,
                        final(self).domains@[i as int].domain@,
                    ) is None && (
                    exists|u: CanonicalUrl| #[trigger]
                        final(self).still_queued(u) && old(self).still_queued(u) && u@.domain
                            == Some(final(self).domains@[i as int].domain@))
                },
                Request::FetchPage { url } => {
                    &&& !seq_has_str(old(self).visited@, url@.url)
                    &&& final(self).visited@ == old(self).visited@.push(url.url)
                    &&& match final(self).pending {
                        Pending::Seed { url: pu } => pu == url && (exists|j: int|
                            0 <= j < old(self).seeds@.len() && seed_parses_to(
                                (#[trigger] old(self).seeds@[j])@,
                                url@,
                            )),
                        Pending::Page { url: pu } => pu == url && old(self).still_queued(url)
                            && no_query_or_fragment(url@.url) && (
                        url@.domain matches Some(d)
                            && dom_count(old(self).domains@, d) < old(self).domain_limit as int && (
                        dom_policy(final(self).domains@, d) matches Some(p) && policy_allows(
                            p@,
                            old(self).robots_mode,
                            old(self).agent@,
                            url@.url,
                        )) && old(self).fetched < old(self).global_limit),
                        _ => false,
                    }
                },
            },
    {
        proof {
            assert(old(self).seeds@.skip(0) =~= old(self).seeds@);
        }
        loop
            invariant
                self.wf(),
                self.pending is Idle,
                self.same_config(*old(self)),
                self.visited@ == old(self).visited@,
                self.fetched == old(self).fetched,
                forall|d: Seq<char>| #![auto]
                    dom_count(self.domains@, d) == dom_count(old(self).domains@, d),
                forall|d: Seq<char>| #![auto]
                    dom_policy(self.domains@, d) == dom_policy(old(self).domains@, d),
                forall|i: int|
                    0 <= i < old(self).frontier@.len() ==> self.kept_or_justified(
                        #[trigger] old(self).frontier@[i],
                    ),
                forall|i: int|
                    0 <= i < old(self).batch@.len() ==> self.kept_or_justified(
                        #[trigger] old(self).batch@[i],
                    ),
                forall|u: CanonicalUrl| #[trigger]
                    self.still_queued(u) ==> old(self).still_queued(u),
                self.seeds@.len() <= old(self).seeds@.len(),
                self.seeds@ == old(self).seeds@.skip(
                    old(self).seeds@.len() - self.seeds@.len(),
                ),
            decreases self.seeds@.len(), self.frontier@.len() + self.batch@.len(),
                self.frontier@.len(),
        {
            let ghost pre = *self;
            // initialization phase: dispatch the seeds, in order
            if self.seeds.len() > 0 {
                let ghost k0 = old(self).seeds@.len() - pre.seeds@.len();
                let seed: String = self.seeds.pop_front().unwrap();
                proof {
                    assert(seed == old(self).seeds@[k0]);
                    assert(self.seeds@ =~= old(self).seeds@.skip(k0 + 1));
                }
                if !seed.as_str().is_empty() {
                    match parse_strip_fragment(seed.as_str()) {
                        None => {},
                        Some(p) => {
                            match p.domain {
                                None => {},
                                Some(dom) => {
                                    let cu = CanonicalUrl {
                                        url: p.url,
                                        domain: Some(dom),
                                        path: p.path,
                                    };
                                    if !contains_str(&self.visited, &cu.url) {
                                        let ghost vpre = self.visited@;
                                        self.visited.push(cu.url.clone());
                                        let r = Request::FetchPage { url: cu.clone() };
                                        self.pending = Pending::Seed { url: cu };
                                        proof {
                                            assert(vpre.is_prefix_of(self.visited@)) by {
                                                assert(self.visited@.subrange(0, vpre.len() as int)
                                                    =~= vpre);
                                            }
                                            assert forall|u: CanonicalUrl|
                                                pre.kept_or_justified(
                                                    u,
                                                ) implies self.kept_or_justified(u) by {
                                                if pre.justified_drop(u) {
                                                    lemma_seq_has_str_push(
                                                        vpre,
                                                        self.visited@.last(),
                                                        u@.url,
                                                    );
                                                }
                                            }
                                            assert(seed_parses_to(
                                                old(self).seeds@[k0]@,
                                                cu@,
                                            ));
                                        }
                                        return r;
                                    }
                                },
                            }
                        },
                    }
                }
                proof {
                    assert forall|u: CanonicalUrl| #[trigger]
                        self.still_queued(u) implies old(self).still_queued(u) by {
                        assert(pre.still_queued(u));
                    }
                }
                continue ;
            }
            // running phase: stop at the global ceiling
            if self.fetched >= self.global_limit {
                return Request::Done;
            }
            // select the next candidate by the discipline
            let cand: CanonicalUrl;
            let ghost from_batch: bool = pre.discipline is DomainBatched;
            match self.discipline {
                Discipline::DomainBatched => {
                    if self.batch.len() > 0 {
                        cand = self.batch.pop().unwrap();
                    } else if self.frontier.len() > 0 {
                        let head_domain: Option<String> = match &self.frontier[0].domain {
                            Some(x) => Some(x.clone()),
                            None => None,
                        };
                        match head_domain {
                            None => {
                                // a host that is no named domain is skipped
                                let dropped = self.frontier.pop_front().unwrap();
                                proof {
                                    assert(self.justified_drop(dropped));
                                    assert forall|u: CanonicalUrl|
                                        pre.kept_or_justified(
                                            u,
                                        ) implies self.kept_or_justified(u) by {
                                        if pre.still_queued(u) && u != dropped {
                                            if pre.frontier@.contains(u) {
                                                lemma_contains_pop_front(pre.frontier@, u);
                                            }
                                        }
                                    }
                                    assert forall|u: CanonicalUrl| #[trigger]
                                        self.still_queued(u) implies old(self).still_queued(u) by {
                                        if self.frontier@.contains(u) {
                                            lemma_subrange_contains(
                                                pre.frontier@,
                                                1,
                                                pre.frontier@.len() as int,
                                                u,
                                            );
                                        }
                                        assert(pre.still_queued(u));
                                    }
                                }
                                continue ;
                            },
                            Some(d) => {
                                // open a batch: pull every queued URL of the
                                // head's domain into the stack
                                let ghost dd = d@;
                                let ghost capf = self.frontier@;
                                let ghost sfix = *self;
                                let mut same_stack: Vec<CanonicalUrl> = Vec::new();
                                let mut rest: VecDeque<CanonicalUrl> = VecDeque::new();
                                let mut k: usize = 0;
                                proof {
                                    reveal_with_fuel(Seq::<_>::filter, 2);
                                    assert(capf.take(0) =~= Seq::<CanonicalUrl>::empty());
                                }
                                while k < self.frontier.len()
                                    invariant
                                        *self == sfix,
                                        k <= capf.len(),
                                        capf == self.frontier@,
                                        dd == d@,
                                        capf.len() > 0 && capf[0]@.domain == Some(dd),
                                        forall|j: int|
                                            0 <= j < capf.len() ==> no_query_or_fragment(
                                                (#[trigger] capf[j])@.url,
                                            ),
                                        same_stack@ == capf.take(k as int).filter(
                                            |u: CanonicalUrl| u@.domain == Some(dd),
                                        ),
                                        rest@ == capf.take(k as int).filter(
                                            |u: CanonicalUrl| u@.domain != Some(dd),
                                        ),
                                        same_stack@.len() + rest@.len() == k,
                                        k >= 1 ==> same_stack@.len() >= 1,
                                        forall|j: int|
                                            0 <= j < same_stack@.len() ==> no_query_or_fragment(
                                                (#[trigger] same_stack@[j])@.url,
                                            ),
                                        forall|j: int|
                                            0 <= j < rest@.len() ==> no_query_or_fragment(
                                                (#[trigger] rest@[j])@.url,
                                            ),
                                        forall|j: int|
                                            0 <= j < same_stack@.len() ==> (
                                            #[trigger] same_stack@[j])@.domain == Some(dd),
                                        forall|u: CanonicalUrl| #[trigger]
                                            same_stack@.contains(u) ==> capf.contains(u),
                                        forall|u: CanonicalUrl| #[trigger]
                                            rest@.contains(u) ==> capf.contains(u),
                                    decreases capf.len() - k,
                                {
                                    let u = (&self.frontier[k]).clone();
                                    let stays = match &u.domain {
                                        Some(x) => *x == d,
                                        None => false,
                                    };
                                    proof {
                                        reveal_with_fuel(Seq::<_>::filter, 2);
                                        assert(u == capf[k as int]);
                                        assert(capf.take(k as int + 1).drop_last() =~= capf.take(
                                            k as int,
                                        ));
                                        assert(capf.take(k as int + 1).last() == capf[k as int]);
                                        assert(stays == (u@.domain == Some(dd)));
                                    }
                                    let ghost spre = same_stack@;
                                    let ghost rpre = rest@;
                                    if stays {
                                        same_stack.push(u);
                                        proof {
                                            assert forall|w: CanonicalUrl| #[trigger]
                                                same_stack@.contains(w) implies capf.contains(
                                                w,
                                            ) by {
                                                let j = choose|j: int|
                                                    0 <= j < same_stack@.len() && same_stack@[j]
                                                        == w;
                                                if j < spre.len() {
                                                    assert(spre[j] == w);
                                                    assert(spre.contains(w));
                                                } else {
                                                    assert(w == capf[k as int]);
                                                    assert(capf[k as int] == w);
                                                    assert(capf.contains(w));
                                                }
                                            }
                                        }
                                    } else {
                                        rest.push_back(u);
                                        proof {
                                            assert forall|w: CanonicalUrl| #[trigger]
                                                rest@.contains(w) implies capf.contains(w) by {
                                                let j = choose|j: int|
                                                    0 <= j < rest@.len() && rest@[j] == w;
                                                if j < rpre.len() {
                                                    assert(rpre[j] == w);
                                                    assert(rpre.contains(w));
                                                } else {
                                                    assert(w == capf[k as int]);
                                                    assert(capf[k as int] == w);
                                                    assert(capf.contains(w));
                                                }
                                            }
                                        }
                                    }
                                    k += 1;
                                }
                                proof {
                                    assert(capf.take(capf.len() as int) =~= capf);
                                }
                                self.frontier = rest;
                                self.batch = same_stack;
                                self.batch_domain = Some(d);
                                proof {
                                    assert(self.batch@.len() >= 1);
                                    assert(self.frontier@.len() < capf.len());
                                    assert forall|u: CanonicalUrl|
                                        pre.kept_or_justified(
                                            u,
                                        ) implies self.kept_or_justified(u) by {
                                        if pre.still_queued(u) {
                                            let j = choose|j: int|
                                                0 <= j < capf.len() && capf[j] == u;
                                            if capf[j]@.domain == Some(dd) {
                                                capf.lemma_filter_contains(
                                                    |w: CanonicalUrl| w@.domain == Some(dd),
                                                    j,
                                                );
                                            } else {
                                                capf.lemma_filter_contains(
                                                    |w: CanonicalUrl| w@.domain != Some(dd),
                                                    j,
                                                );
                                            }
                                        }
                                    }
                                    assert forall|u: CanonicalUrl| #[trigger]
                                        self.still_queued(u) implies old(self).still_queued(u) by {
                                        assert(capf.contains(u));
                                        assert(pre.still_queued(u));
                                    }
                                }
                                continue ;
                            },
                        }
                    } else {
                        return Request::Done;
                    }
                },
                Discipline::GlobalFifo => {
                    if self.frontier.len() > 0 {
                        cand = self.frontier.pop_front().unwrap();
                    } else {
                        return Request::Done;
                    }
                },
            }
            // one candidate in hand; whatever else was queued is untouched
            proof {
                assert forall|u: CanonicalUrl|
                    pre.still_queued(u) && u != cand implies self.still_queued(u) by {
                    if from_batch {
                        if pre.batch@.contains(u) {
                            lemma_contains_pop_back(pre.batch@, u);
                        }
                    } else {
                        if pre.frontier@.contains(u) {
                            lemma_contains_pop_front(pre.frontier@, u);
                        }
                    }
                }
                if from_batch {
                    assert(pre.batch@[pre.batch@.len() - 1] == cand);
                    assert(pre.batch@.contains(cand));
                } else {
                    assert(pre.frontier@[0] == cand);
                    assert(pre.frontier@.contains(cand));
                }
                assert(pre.still_queued(cand));
                assert(old(self).still_queued(cand));
                assert forall|u: CanonicalUrl| #[trigger]
                    self.still_queued(u) implies old(self).still_queued(u) by {
                    if from_batch {
                        if self.batch@.contains(u) {
                            lemma_subrange_contains(pre.batch@, 0, pre.batch@.len() - 1, u);
                        }
                    } else {
                        if self.frontier@.contains(u) {
                            lemma_subrange_contains(
                                pre.frontier@,
                                1,
                                pre.frontier@.len() as int,
                                u,
                            );
                        }
                    }
                    assert(pre.still_queued(u));
                }
            }
            // a URL dispatched once is never dispatched again
            if contains_str(&self.visited, &cand.url) {
                proof {
                    assert(self.justified_drop(cand));
                }
                continue ;
            }
            // the candidate's domain; hosts that are no named domain are
            // skipped
            let dom: String = match &cand.domain {
                Some(x) => x.clone(),
                None => {
                    proof {
                        assert(self.justified_drop(cand));
                    }
                    continue ;
                },
            };
            // resolve the domain's state, asking for robots.txt on first
            // sight
            let iopt = find_domain(&self.domains, &dom);
            let i: usize;
            match iopt {
                Some(found) => {
                    i = found;
                },
                None => {
                    let st = DomainState { domain: dom.clone(), fetched: 0, policy: None };
                    proof {
                        assert forall|d2: Seq<char>| #![auto]
                            dom_count(self.domains@.push(st), d2) == dom_count(self.domains@, d2)
                            && dom_policy(self.domains@.push(st), d2) == dom_policy(
                            self.domains@,
                            d2,
                        ) by {
                            lemma_dom_find_push(self.domains@, st, d2);
                        }
                        lemma_dom_find_none_inv(self.domains@, dom@);
                    }
                    self.domains.push(st);
                    let idx = self.domains.len() - 1;
                    let ghost fpre2 = self.frontier@;
                    let ghost bpre2 = self.batch@;
                    match self.discipline {
                        Discipline::DomainBatched => {
                            self.batch.push(cand);
                        },
                        Discipline::GlobalFifo => {
                            self.frontier.push_front(cand);
                        },
                    }
                    self.pending = Pending::Robots { i: idx };
                    let rurl = robots_txt_url(dom.as_str());
                    proof {
                        assert(self.still_queued(cand)) by {
                            match pre.discipline {
                                Discipline::DomainBatched => {
                                    assert(self.batch@[self.batch@.len() - 1] == cand);
                                },
                                Discipline::GlobalFifo => {
                                    assert(self.frontier@[0] == cand);
                                },
                            }
                        }
                        lemma_origin_after_pushback(pre, *self, cand, from_batch, bpre2, fpre2);
                        assert forall|u: CanonicalUrl| #[trigger]
                            self.still_queued(u) implies old(self).still_queued(u) by {
                            assert(pre.still_queued(u));
                        }
                        assert forall|u: CanonicalUrl|
                            pre.kept_or_justified(u) implies self.kept_or_justified(u) by {
                            if pre.still_queued(u) && u != cand {
                                if from_batch {
                                    if pre.batch@.contains(u) {
                                        lemma_contains_pop_back(pre.batch@, u);
                                    }
                                } else {
                                    if pre.frontier@.contains(u) {
                                        lemma_contains_pop_front(pre.frontier@, u);
                                    }
                                }
                                if bpre2.contains(u) {
                                    lemma_contains_push(bpre2, cand, u);
                                }
                                if fpre2.contains(u) {
                                    lemma_contains_push_front(fpre2, cand, u);
                                }
                            }
                        }
                    }
                    return Request::FetchRobots { url: rurl };
                },
            }
            // unresolved policy: ask for robots.txt before touching the URL
            let has_policy = match &self.domains[i].policy {
                Some(_) => true,
                None => false,
            };
            if !has_policy {
                let ghost fpre2 = self.frontier@;
                let ghost bpre2 = self.batch@;
                match self.discipline {
                    Discipline::DomainBatched => {
                        self.batch.push(cand);
                    },
                    Discipline::GlobalFifo => {
                        self.frontier.push_front(cand);
                    },
                }
                self.pending = Pending::Robots { i };
                let rurl = robots_txt_url(dom.as_str());
                proof {
                    assert(self.still_queued(cand)) by {
                        match pre.discipline {
                            Discipline::DomainBatched => {
                                assert(self.batch@[self.batch@.len() - 1] == cand);
                            },
                            Discipline::GlobalFifo => {
                                assert(self.frontier@[0] == cand);
                            },
                        }
                    }
                    lemma_origin_after_pushback(pre, *self, cand, from_batch, bpre2, fpre2);
                    assert forall|u: CanonicalUrl| #[trigger]
                        self.still_queued(u) implies old(self).still_queued(u) by {
                        assert(pre.still_queued(u));
                    }
                    assert forall|u: CanonicalUrl|
                        pre.kept_or_justified(u) implies self.kept_or_justified(u) by {
                        if pre.still_queued(u) && u != cand {
                            if from_batch {
                                if pre.batch@.contains(u) {
                                    lemma_contains_pop_back(pre.batch@, u);
                                }
                            } else {
                                if pre.frontier@.contains(u) {
                                    lemma_contains_pop_front(pre.frontier@, u);
                                }
                            }
                            if bpre2.contains(u) {
                                lemma_contains_push(bpre2, cand, u);
                            }
                            if fpre2.contains(u) {
                                lemma_contains_push_front(fpre2, cand, u);
                            }
                        }
                    }
                }
                return Request::FetchRobots { url: rurl };
            }
            // per-domain budget
            if self.domains[i].reached_limit(self.domain_limit) {
                proof {
                    assert(self.justified_drop(cand));
                }
                continue ;
            }
            // robots policy
            let allowed = {
                let pol: &RobotsPolicy = match &self.domains[i].policy {
                    Some(p) => p,
                    None => {
                        proof {
                            assert(false);
                        }
                        &RobotsPolicy::AllowAll
                    },
                };
                pol.allows(self.robots_mode, self.agent.as_str(), cand.url.as_str())
            };
            if !allowed {
                proof {
                    assert(self.justified_drop(cand));
                }
                continue ;
            }
            // dispatch
            let ghost vpre = self.visited@;
            self.visited.push(cand.url.clone());
            let r = Request::FetchPage { url: cand.clone() };
            self.pending = Pending::Page { url: cand };
            proof {
                assert(vpre.is_prefix_of(self.visited@)) by {
                    assert(self.visited@.subrange(0, vpre.len() as int) =~= vpre);
                }
                assert forall|u: CanonicalUrl|
                    pre.kept_or_justified(u) implies self.kept_or_justified(u) by {
                    if u == cand {
                        assert(self.visited@[self.visited@.len() - 1]@ == u@.url);
                        assert(seq_has_str(self.visited@, u@.url));
                    } else if pre.still_queued(u) {
                        if from_batch {
                            if pre.batch@.contains(u) {
                                lemma_contains_pop_back(pre.batch@, u);
                            }
                        } else {
                            if pre.frontier@.contains(u) {
                                lemma_contains_pop_front(pre.frontier@, u);
                            }
                        }
                    } else {
                        lemma_seq_has_str_push(vpre, self.visited@[self.visited@.len() - 1], u@.url);
                    }
                }
            }
            return r;
        }
    }
}

} // verus!

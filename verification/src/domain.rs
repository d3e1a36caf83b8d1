use vstd::prelude::*;

use crate::robots::RobotsPolicy;

verus! {

/// Per-domain crawl state: how many pages were successfully fetched under
/// the domain, and its robots policy, absent until first resolved. Created
/// on first sight of the domain and never removed.
pub struct DomainState {
    /// The domain (host name, no scheme or port).
    pub domain: String,
    /// Successful fetches under this domain so far.
    pub fetched: usize,
    /// The resolved robots policy, `None` until the robots.txt fetch for
    /// this domain has been answered.
    pub policy: Option<RobotsPolicy>,
}

impl DomainState {
    /// Whether the per-domain ceiling has been reached.
    pub fn reached_limit(&self, limit: usize) -> (r: bool)
        ensures
            r == (self.fetched >= limit),
    {
        self.fetched >= limit
    }
}

/// The first entry for domain `d`, if any.
pub open spec fn dom_find(ds: Seq<DomainState>, d: Seq<char>) -> Option<DomainState>
    decreases ds.len(),
{
    if ds.len() == 0 {
        None
    } else if ds.first().domain@ == d {
        Some(ds.first())
    } else {
        dom_find(ds.drop_first(), d)
    }
}

/// The successful-fetch count recorded for domain `d`; a domain never seen
/// counts zero.
pub open spec fn dom_count(ds: Seq<DomainState>, d: Seq<char>) -> int {
    match dom_find(ds, d) {
        Some(st) => st.fetched as int,
        None => 0,
    }
}

/// The resolved policy recorded for domain `d`; `None` while the domain is
/// unseen or its robots.txt fetch unanswered.
pub open spec fn dom_policy(ds: Seq<DomainState>, d: Seq<char>) -> Option<RobotsPolicy> {
    match dom_find(ds, d) {
        Some(st) => st.policy,
        None => None,
    }
}

/// A first match at index `i` is what `dom_find` returns.
pub proof fn lemma_dom_find_first(ds: Seq<DomainState>, i: int)
    requires
        0 <= i < ds.len(),
        forall|j: int| 0 <= j < i ==> (#[trigger] ds[j]).domain@ != ds[i].domain@,
    ensures
        dom_find(ds, ds[i].domain@) == Some(ds[i]),
    decreases i,
{
    if i == 0 {
    } else {
        assert(ds[0].domain@ != ds[i].domain@);
        assert(forall|j: int|
            0 <= j < i - 1 ==> (#[trigger] ds.drop_first()[j]).domain@ != ds.drop_first()[i
                - 1].domain@);
        lemma_dom_find_first(ds.drop_first(), i - 1);
    }
}

/// When no entry has domain `d`, `dom_find` returns nothing.
pub proof fn lemma_dom_find_none(ds: Seq<DomainState>, d: Seq<char>)
    requires
        forall|j: int| 0 <= j < ds.len() ==> (#[trigger] ds[j]).domain@ != d,
    ensures
        dom_find(ds, d) is None,
    decreases ds.len(),
{
    if ds.len() > 0 {
        assert(ds[0].domain@ != d);
        lemma_dom_find_none(ds.drop_first(), d);
    }
}

/// When `dom_find` returns nothing, no entry has domain `d`.
pub proof fn lemma_dom_find_none_inv(ds: Seq<DomainState>, d: Seq<char>)
    requires
        dom_find(ds, d) is None,
    ensures
        forall|j: int| 0 <= j < ds.len() ==> (#[trigger] ds[j]).domain@ != d,
    decreases ds.len(),
{
    if ds.len() > 0 {
        lemma_dom_find_none_inv(ds.drop_first(), d);
        assert forall|j: int| 0 <= j < ds.len() implies (#[trigger] ds[j]).domain@ != d by {
            if j > 0 {
                assert(ds.drop_first()[j - 1] == ds[j]);
            }
        }
    }
}

/// Replacing the first match for its own domain makes the replacement the
/// match; every other domain's match is untouched.
pub proof fn lemma_dom_find_update(ds: Seq<DomainState>, i: int, st: DomainState)
    requires
        0 <= i < ds.len(),
        st.domain@ == ds[i].domain@,
        forall|j: int| 0 <= j < i ==> (#[trigger] ds[j]).domain@ != ds[i].domain@,
    ensures
        dom_find(ds.update(i, st), ds[i].domain@) == Some(st),
        forall|d: Seq<char>|
            d != ds[i].domain@ ==> #[trigger] dom_find(ds.update(i, st), d) == dom_find(ds, d),
    decreases ds.len(),
{
    let upd = ds.update(i, st);
    if i == 0 {
        assert(upd.first() == st);
        assert(upd.drop_first() =~= ds.drop_first());
        assert forall|d: Seq<char>|
            d != ds[i].domain@ implies #[trigger] dom_find(upd, d) == dom_find(ds, d) by {
            assert(dom_find(upd, d) == dom_find(upd.drop_first(), d));
            assert(dom_find(ds, d) == dom_find(ds.drop_first(), d));
        }
    } else {
        assert(upd.first() == ds.first());
        assert(upd.drop_first() =~= ds.drop_first().update(i - 1, st));
        assert(ds.drop_first()[i - 1] == ds[i]);
        assert(forall|j: int|
            0 <= j < i - 1 ==> (#[trigger] ds.drop_first()[j]).domain@ != ds.drop_first()[i
                - 1].domain@);
        lemma_dom_find_update(ds.drop_first(), i - 1, st);
        assert(dom_find(upd, ds[i].domain@) == dom_find(upd.drop_first(), ds[i].domain@));
        assert forall|d: Seq<char>|
            d != ds[i].domain@ implies #[trigger] dom_find(upd, d) == dom_find(ds, d) by {
            if ds.first().domain@ == d {
            } else {
                assert(dom_find(upd, d) == dom_find(upd.drop_first(), d));
                assert(dom_find(ds, d) == dom_find(ds.drop_first(), d));
                assert(dom_find(ds.drop_first().update(i - 1, st), d) == dom_find(
                    ds.drop_first(),
                    d,
                ));
            }
        }
    }
}

/// Appending an entry leaves every present domain's match untouched and
/// makes the entry the match for its domain when that domain was absent.
pub proof fn lemma_dom_find_push(ds: Seq<DomainState>, st: DomainState, d: Seq<char>)
    ensures
        dom_find(ds, d) is Some ==> dom_find(ds.push(st), d) == dom_find(ds, d),
        dom_find(ds, d) is None && st.domain@ == d ==> dom_find(ds.push(st), d) == Some(st),
        dom_find(ds, d) is None && st.domain@ != d ==> dom_find(ds.push(st), d) is None,
    decreases ds.len(),
{
    if ds.len() == 0 {
        assert(ds.push(st).drop_first() =~= Seq::<DomainState>::empty());
    } else {
        assert(ds.push(st).first() == ds.first());
        assert(ds.push(st).drop_first() =~= ds.drop_first().push(st));
        lemma_dom_find_push(ds.drop_first(), st, d);
    }
}

/// Finds the index of the first entry for domain `d`, if any.
pub fn find_domain(ds: &Vec<DomainState>, d: &String) -> (r: Option<usize>)
    ensures
        match r {
            Some(i) => i < ds@.len() && ds@[i as int].domain@ == d@ && dom_find(ds@, d@) == Some(
                ds@[i as int],
            ) && (forall|j: int| 0 <= j < i ==> (#[trigger] ds@[j]).domain@ != d@),
            None => dom_find(ds@, d@) is None,
        },
{
    let mut i: usize = 0;
    while i < ds.len()
        invariant
            i <= ds@.len(),
            forall|j: int| 0 <= j < i ==> (#[trigger] ds@[j]).domain@ != d@,
        decreases ds@.len() - i,
    {
        if ds[i].domain == *d {
            proof {
                lemma_dom_find_first(ds@, i as int);
            }
            return Some(i);
        }
        i += 1;
    }
    proof {
        lemma_dom_find_none(ds@, d@);
    }
    None
}

} // verus!

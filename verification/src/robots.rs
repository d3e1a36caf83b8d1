use vstd::prelude::*;
use vstd::string::StringExecFns;

verus! {

/// Run-wide handling of a domain whose robots.txt is unreachable or
/// unparseable: either the domain is treated as fully allowed, or nothing
/// under it is ever fetched. Fixed once per run.
#[derive(Clone, Copy)]
pub enum RobotsMode {
    Permissive,
    Strict,
}

/// The exclusion policy of one domain, immutable once resolved.
pub enum RobotsPolicy {
    /// Fully allowed: the permissive stand-in for an unreachable robots.txt.
    AllowAll,
    /// Fully denied: the strict stand-in for an unreachable robots.txt.
    DenyAll,
    /// The retrieved robots.txt text; queries are answered by the rules it
    /// compiles to for the crawler's user agent.
    Rules(String),
}

/// Mathematical image of a `RobotsPolicy`.
pub enum PolicyView {
    AllowAll,
    DenyAll,
    Rules(Seq<char>),
}

impl View for RobotsPolicy {
    type V = PolicyView;

    open spec fn view(&self) -> PolicyView {
        match self {
            RobotsPolicy::AllowAll => PolicyView::AllowAll,
            RobotsPolicy::DenyAll => PolicyView::DenyAll,
            RobotsPolicy::Rules(txt) => PolicyView::Rules(txt@),
        }
    }
}

impl Clone for RobotsPolicy {
    fn clone(&self) -> (r: Self)
        ensures
            r == *self,
    {
        match self {
            RobotsPolicy::AllowAll => RobotsPolicy::AllowAll,
            RobotsPolicy::DenyAll => RobotsPolicy::DenyAll,
            RobotsPolicy::Rules(txt) => RobotsPolicy::Rules(txt.clone()),
        }
    }
}

/// What the rules compiled from robots.txt text `txt` for user agent `agent`
/// answer for `url`; `None` when the text does not compile to a rule set.
pub uninterp spec fn robots_verdict(agent: Seq<char>, txt: Seq<char>, url: Seq<char>) -> Option<
    bool,
>;

/// Relies on `texting_robots::Robot::new` and `Robot::allowed`: whether the
/// rules compiled from `txt` for `agent` permit fetching `url`, or `None`
/// when the text cannot be compiled. Compilation and matching are
/// deterministic, so the result is a function of the arguments alone.
#[verifier::external_body]
fn robots_decision(agent: &str, txt: &str, url: &str) -> (r: Option<bool>)
    ensures
        r == robots_verdict(agent@, txt@, url@),
{
    match texting_robots::Robot::new(agent, txt.as_bytes()) {
        Ok(robot) => Some(robot.allowed(url)),
        Err(_) => None,
    }
}

/// The policy a robots.txt fetch outcome resolves to: the retrieved text
/// when the fetch succeeded, otherwise the mode's stand-in.
pub open spec fn resolve_policy_spec(mode: RobotsMode, body: Option<Seq<char>>) -> PolicyView {
    match body {
        Some(txt) => PolicyView::Rules(txt),
        None => match mode {
            RobotsMode::Permissive => PolicyView::AllowAll,
            RobotsMode::Strict => PolicyView::DenyAll,
        },
    }
}

/// Whether a policy permits fetching `url` for user agent `agent`; a rule
/// text that does not compile falls back to the run's robots mode.
pub open spec fn policy_allows(
    p: PolicyView,
    mode: RobotsMode,
    agent: Seq<char>,
    url: Seq<char>,
) -> bool {
    match p {
        PolicyView::AllowAll => true,
        PolicyView::DenyAll => false,
        PolicyView::Rules(txt) => match robots_verdict(agent, txt, url) {
            Some(b) => b,
            None => mode is Permissive,
        },
    }
}

impl RobotsPolicy {
    /// Answers the allow/deny query this policy gives for `url`.
    pub fn allows(&self, mode: RobotsMode, agent: &str, url: &str) -> (r: bool)
        ensures
            r == policy_allows(self@, mode, agent@, url@),
    {
        match self {
            RobotsPolicy::AllowAll => true,
            RobotsPolicy::DenyAll => false,
            RobotsPolicy::Rules(txt) => match robots_decision(agent, txt.as_str(), url) {
                Some(b) => b,
                None => match mode {
                    RobotsMode::Permissive => true,
                    RobotsMode::Strict => false,
                },
            },
        }
    }
}

/// Resolves the policy of a domain from the outcome of its robots.txt fetch.
pub fn resolve_policy(mode: RobotsMode, body: Option<String>) -> (r: RobotsPolicy)
    ensures
        r@ == resolve_policy_spec(mode, body.deep_view()),
{
    match body {
        Some(txt) => RobotsPolicy::Rules(txt),
        None => match mode {
            RobotsMode::Permissive => RobotsPolicy::AllowAll,
            RobotsMode::Strict => RobotsPolicy::DenyAll,
        },
    }
}

/// The robots.txt URL of a domain.
pub open spec fn robots_url_spec(domain: Seq<char>) -> Seq<char> {
    "https://"@ + domain + "/robots.txt"@
}

/// Builds `https://<domain>/robots.txt`.
pub fn robots_txt_url(domain: &str) -> (r: String)
    ensures
        r@ == robots_url_spec(domain@),
{
    let mut t = String::from_str("https://");
    t.append(domain);
    t.append("/robots.txt");
    t
}

} // verus!

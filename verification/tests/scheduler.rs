use crawler::crawler::{Crawler, Discipline, Request};
use crawler::robots::RobotsMode;

const AGENT: &str = "alex-observer/0.1.0";

fn batched(seeds: Vec<&str>) -> Crawler {
    Crawler::new(
        Discipline::DomainBatched,
        RobotsMode::Permissive,
        256,
        usize::MAX,
        AGENT.to_string(),
        seeds.into_iter().map(str::to_string).collect(),
    )
}

fn expect_page(r: Request) -> String {
    match r {
        Request::FetchPage { url } => url.url,
        Request::FetchRobots { url } => panic!("expected a page fetch, got robots fetch {}", url),
        Request::Done => panic!("expected a page fetch, got the end of the run"),
    }
}

fn expect_robots(r: Request) -> String {
    match r {
        Request::FetchRobots { url } => url,
        Request::FetchPage { url } => panic!("expected a robots fetch, got page fetch {}", url.url),
        Request::Done => panic!("expected a robots fetch, got the end of the run"),
    }
}

fn expect_done(r: Request) {
    match r {
        Request::Done => {},
        Request::FetchPage { url } => panic!("expected the end of the run, got page {}", url.url),
        Request::FetchRobots { url } => panic!("expected the end of the run, got robots {}", url),
    }
}

#[test]
fn init_enqueues_exactly_the_normalizable_links() {
    let mut c = batched(vec!["https://a.example/"]);
    assert_eq!(expect_page(c.next()), "https://a.example/");
    c.provide_page(Some(String::from(
        "<body>\
         <a href=\"/p1\">one</a>\
         <a href=\"//cdn.example/x\">two</a>\
         <a href=\"#frag\">three</a>\
         <a href=\"http://insecure.example/\">four</a>\
         </body>",
    )));
    let frontier: Vec<&str> = c.frontier.iter().map(|u| u.url.as_str()).collect();
    assert_eq!(frontier.len(), 2);
    assert!(frontier.contains(&"https://a.example/p1"));
    assert!(frontier.contains(&"https://cdn.example/x"));
}

#[test]
fn a_visited_url_is_never_dispatched_again() {
    let mut c = batched(vec!["https://a.example/"]);
    assert_eq!(expect_page(c.next()), "https://a.example/");
    // the same link twice: both enter the frontier, one fetch at most
    c.provide_page(Some(String::from(
        "<body><a href=\"/p1\">a</a><a href=\"/p1\">b</a></body>",
    )));
    assert_eq!(c.frontier.len(), 2);
    assert_eq!(expect_robots(c.next()), "https://a.example/robots.txt");
    c.provide_robots(None);
    assert_eq!(expect_page(c.next()), "https://a.example/p1");
    // even a failed fetch marks the URL visited: never retried
    c.provide_page(None);
    expect_done(c.next());
    assert_eq!(c.fetched, 0);
}

#[test]
fn a_seed_dispatched_once_is_not_dispatched_again() {
    let mut c = batched(vec!["https://a.example/", "https://a.example/"]);
    assert_eq!(expect_page(c.next()), "https://a.example/");
    c.provide_page(None);
    expect_done(c.next());
}

#[test]
fn domain_budget_stops_further_fetches() {
    let mut c = Crawler::new(
        Discipline::DomainBatched,
        RobotsMode::Permissive,
        1,
        usize::MAX,
        AGENT.to_string(),
        vec![String::from("https://a.example/")],
    );
    assert_eq!(expect_page(c.next()), "https://a.example/");
    c.provide_page(Some(String::from(
        "<body><a href=\"/p1\">a</a><a href=\"/p2\">b</a></body>",
    )));
    assert_eq!(expect_robots(c.next()), "https://a.example/robots.txt");
    c.provide_robots(None);
    // the per-domain stack drains newest-first: p2 comes out first
    assert_eq!(expect_page(c.next()), "https://a.example/p2");
    // a successful fetch reaches the ceiling of 1; its new link is discovered
    c.provide_page(Some(String::from("<body><a href=\"/p3\">c</a></body>")));
    assert_eq!(c.fetched, 1);
    // p3 and p1 are both dropped: the budget is exhausted
    expect_done(c.next());
    assert_eq!(c.fetched, 1);
}

#[test]
fn robots_disallowed_path_is_never_fetched() {
    let mut c = batched(vec!["https://domain.example/"]);
    assert_eq!(expect_page(c.next()), "https://domain.example/");
    c.provide_page(Some(String::from(
        "<body><a href=\"/private\">p</a><a href=\"/ok\">o</a></body>",
    )));
    assert_eq!(expect_robots(c.next()), "https://domain.example/robots.txt");
    c.provide_robots(Some(String::from("User-agent: *\nDisallow: /private")));
    // /ok is dispatched (stack top), /private never is
    assert_eq!(expect_page(c.next()), "https://domain.example/ok");
    c.provide_page(None);
    expect_done(c.next());
    assert!(c.visited.iter().all(|v| v != "https://domain.example/private"));
}

#[test]
fn unreachable_robots_permissive_mode_allows_the_domain() {
    let mut c = batched(vec!["https://a.example/"]);
    assert_eq!(expect_page(c.next()), "https://a.example/");
    c.provide_page(Some(String::from(
        "<body><a href=\"/p1\">a</a><a href=\"/p2\">b</a></body>",
    )));
    assert_eq!(expect_robots(c.next()), "https://a.example/robots.txt");
    c.provide_robots(None);
    assert_eq!(expect_page(c.next()), "https://a.example/p2");
    c.provide_page(Some(String::from("<body></body>")));
    assert_eq!(expect_page(c.next()), "https://a.example/p1");
    c.provide_page(Some(String::from("<body></body>")));
    expect_done(c.next());
    assert_eq!(c.fetched, 2);
}

#[test]
fn unreachable_robots_strict_mode_blocks_the_domain() {
    let mut c = Crawler::new(
        Discipline::DomainBatched,
        RobotsMode::Strict,
        256,
        usize::MAX,
        AGENT.to_string(),
        vec![String::from("https://a.example/")],
    );
    assert_eq!(expect_page(c.next()), "https://a.example/");
    c.provide_page(Some(String::from(
        "<body><a href=\"/p1\">a</a><a href=\"/p2\">b</a></body>",
    )));
    assert_eq!(expect_robots(c.next()), "https://a.example/robots.txt");
    c.provide_robots(None);
    // zero URLs under the failed domain are ever fetched
    expect_done(c.next());
    assert_eq!(c.fetched, 0);
}

#[test]
fn batched_discipline_drains_a_domain_depth_first() {
    let mut c = batched(vec!["https://seed.example/"]);
    assert_eq!(expect_page(c.next()), "https://seed.example/");
    c.provide_page(Some(String::from(
        "<body>\
         <a href=\"https://b.example/1\">b1</a>\
         <a href=\"https://other.example/x\">ox</a>\
         <a href=\"https://b.example/2\">b2</a>\
         </body>",
    )));
    // b.example is batched first; its stack drains newest-first
    assert_eq!(expect_robots(c.next()), "https://b.example/robots.txt");
    c.provide_robots(None);
    assert_eq!(expect_page(c.next()), "https://b.example/2");
    // a same-domain discovery lands on the still-open stack and is
    // processed before the rest of the batch
    c.provide_page(Some(String::from(
        "<body><a href=\"https://b.example/3\">b3</a></body>",
    )));
    assert_eq!(expect_page(c.next()), "https://b.example/3");
    c.provide_page(Some(String::from("<body></body>")));
    assert_eq!(expect_page(c.next()), "https://b.example/1");
    // a cross-domain discovery waits in the main frontier for its own batch
    c.provide_page(Some(String::from("<body></body>")));
    assert_eq!(expect_robots(c.next()), "https://other.example/robots.txt");
    c.provide_robots(None);
    assert_eq!(expect_page(c.next()), "https://other.example/x");
    c.provide_page(Some(String::from("<body></body>")));
    expect_done(c.next());
    assert_eq!(c.fetched, 4);
}

#[test]
fn global_fifo_discipline_is_strictly_first_in_first_out() {
    let mut c = Crawler::new(
        Discipline::GlobalFifo,
        RobotsMode::Permissive,
        256,
        usize::MAX,
        AGENT.to_string(),
        vec![String::from("https://seed.example/")],
    );
    assert_eq!(expect_page(c.next()), "https://seed.example/");
    c.provide_page(Some(String::from(
        "<body>\
         <a href=\"https://b.example/1\">b1</a>\
         <a href=\"https://other.example/x\">ox</a>\
         <a href=\"https://b.example/2\">b2</a>\
         </body>",
    )));
    assert_eq!(expect_robots(c.next()), "https://b.example/robots.txt");
    c.provide_robots(None);
    assert_eq!(expect_page(c.next()), "https://b.example/1");
    c.provide_page(None);
    assert_eq!(expect_robots(c.next()), "https://other.example/robots.txt");
    c.provide_robots(None);
    assert_eq!(expect_page(c.next()), "https://other.example/x");
    c.provide_page(None);
    // b.example's policy is already cached: no second robots fetch
    assert_eq!(expect_page(c.next()), "https://b.example/2");
    c.provide_page(None);
    expect_done(c.next());
}

#[test]
fn hosts_without_a_domain_are_skipped() {
    let mut c = batched(vec!["https://a.example/"]);
    assert_eq!(expect_page(c.next()), "https://a.example/");
    c.provide_page(Some(String::from(
        "<body><a href=\"https://127.0.0.1/x\">ip</a></body>",
    )));
    assert_eq!(c.frontier.len(), 1);
    expect_done(c.next());
    assert_eq!(c.fetched, 0);
}

#[test]
fn global_ceiling_ends_the_run() {
    let mut c = Crawler::new(
        Discipline::DomainBatched,
        RobotsMode::Permissive,
        256,
        1,
        AGENT.to_string(),
        vec![String::from("https://a.example/")],
    );
    assert_eq!(expect_page(c.next()), "https://a.example/");
    c.provide_page(Some(String::from(
        "<body><a href=\"/p1\">a</a><a href=\"/p2\">b</a></body>",
    )));
    assert_eq!(expect_robots(c.next()), "https://a.example/robots.txt");
    c.provide_robots(None);
    assert_eq!(expect_page(c.next()), "https://a.example/p2");
    c.provide_page(Some(String::from("<body></body>")));
    assert_eq!(c.fetched, 1);
    // the ceiling of one successful fetch is reached: the run ends with
    // work still queued
    expect_done(c.next());
    assert_eq!(c.frontier.len() + c.batch.len(), 1);
}

#[test]
fn blank_and_invalid_seed_lines_are_skipped() {
    let mut c = batched(vec!["", "not a url", "https://a.example/#frag"]);
    // the fragment is stripped from the seed
    assert_eq!(expect_page(c.next()), "https://a.example/");
    c.provide_page(None);
    expect_done(c.next());
}

#[test]
fn seed_queries_are_preserved() {
    let mut c = batched(vec!["https://a.example/?q=1"]);
    assert_eq!(expect_page(c.next()), "https://a.example/?q=1");
    c.provide_page(None);
    expect_done(c.next());
}

#[test]
fn seed_fetch_failures_do_not_abort_initialization() {
    let mut c = batched(vec!["https://a.example/", "https://b.example/"]);
    assert_eq!(expect_page(c.next()), "https://a.example/");
    c.provide_page(None);
    assert_eq!(expect_page(c.next()), "https://b.example/");
    c.provide_page(None);
    expect_done(c.next());
}

#[test]
fn an_empty_seed_list_ends_immediately() {
    let mut c = batched(vec![]);
    expect_done(c.next());
    assert_eq!(c.fetched, 0);
    assert!(c.visited.is_empty());
}

use crawler::robots::{resolve_policy, robots_txt_url, RobotsMode, RobotsPolicy};

const AGENT: &str = "alex-observer/0.1.0";

#[test]
fn robots_url_is_derived_from_the_domain_root() {
    assert_eq!(robots_txt_url("a.example"), "https://a.example/robots.txt");
}

#[test]
fn disallowed_path_is_denied() {
    let policy = RobotsPolicy::Rules(String::from("User-agent: *\nDisallow: /private"));
    assert!(!policy.allows(RobotsMode::Permissive, AGENT, "https://domain.example/private"));
    assert!(policy.allows(RobotsMode::Permissive, AGENT, "https://domain.example/public"));
}

#[test]
fn rules_for_other_agents_are_ignored() {
    let policy = RobotsPolicy::Rules(String::from(
        "User-agent: other-bot\nDisallow: /\n\nUser-agent: *\nDisallow: /closed",
    ));
    assert!(policy.allows(RobotsMode::Permissive, AGENT, "https://d.example/open"));
    assert!(!policy.allows(RobotsMode::Permissive, AGENT, "https://d.example/closed"));
}

#[test]
fn rules_addressed_to_this_agent_win() {
    let policy = RobotsPolicy::Rules(String::from(
        "User-agent: alex-observer/0.1.0\nDisallow: /mine\n\nUser-agent: *\nDisallow: /all",
    ));
    assert!(!policy.allows(RobotsMode::Permissive, AGENT, "https://d.example/mine"));
    assert!(policy.allows(RobotsMode::Permissive, AGENT, "https://d.example/all"));
}

#[test]
fn fetch_failure_resolves_by_mode() {
    let permissive = resolve_policy(RobotsMode::Permissive, None);
    assert!(permissive.allows(RobotsMode::Permissive, AGENT, "https://d.example/anything"));
    let strict = resolve_policy(RobotsMode::Strict, None);
    assert!(!strict.allows(RobotsMode::Strict, AGENT, "https://d.example/anything"));
}

#[test]
fn fetched_text_becomes_the_rules() {
    let policy = resolve_policy(
        RobotsMode::Permissive,
        Some(String::from("User-agent: *\nDisallow: /x")),
    );
    assert!(!policy.allows(RobotsMode::Permissive, AGENT, "https://d.example/x"));
    assert!(policy.allows(RobotsMode::Permissive, AGENT, "https://d.example/y"));
}

#[test]
fn empty_rules_allow_everything() {
    let policy = RobotsPolicy::Rules(String::new());
    assert!(policy.allows(RobotsMode::Permissive, AGENT, "https://d.example/whatever"));
}

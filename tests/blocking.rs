use privaxy::blocker::{
    compile_rules, decision_or_fail_open, evaluate, parse_rule, BlockerRequest, BlockingDecision, BlockingService, FilterRule,
    ResourceType,
};

fn rule(pattern: &str, exception: bool, resource: Option<ResourceType>) -> FilterRule {
    FilterRule { pattern: pattern.to_string(), exception, resource }
}

fn request(url: &str, resource: ResourceType) -> BlockerRequest {
    BlockerRequest { url: url.to_string(), source_host: "news.example.org".to_string(), resource }
}

fn ads_rules() -> Vec<FilterRule> {
    vec![rule("ads.example.com", false, None), rule("ads.example.com/safe.js", true, None)]
}

#[test]
fn exception_rule_overrides_block() {
    let rules = ads_rules();
    assert_eq!(
        evaluate(false, &rules, &request("https://ads.example.com/track.js", ResourceType::Script)),
        BlockingDecision::Block
    );
    assert_eq!(
        evaluate(false, &rules, &request("https://ads.example.com/safe.js", ResourceType::Script)),
        BlockingDecision::Allow
    );
}

#[test]
fn exception_listed_before_block_still_wins() {
    let rules = vec![rule("ads.example.com/safe.js", true, None), rule("ads.example.com", false, None)];
    assert_eq!(
        evaluate(false, &rules, &request("https://ads.example.com/safe.js", ResourceType::Script)),
        BlockingDecision::Allow
    );
}

#[test]
fn disabled_store_allows_everything() {
    let rules = ads_rules();
    for url in ["https://ads.example.com/track.js", "http://ads.example.com", "https://ads.example.com/safe.js"] {
        assert_eq!(evaluate(true, &rules, &request(url, ResourceType::Script)), BlockingDecision::Allow);
    }
}

#[test]
fn no_matching_rule_allows() {
    let rules = ads_rules();
    assert_eq!(
        evaluate(false, &rules, &request("https://example.com/index.html", ResourceType::Document)),
        BlockingDecision::Allow
    );
    assert_eq!(evaluate(false, &Vec::new(), &request("https://ads.example.com/x", ResourceType::Image)), BlockingDecision::Allow);
}

#[test]
fn host_pattern_needs_host_boundary() {
    let rules = vec![rule("ads.example.com", false, None)];
    assert_eq!(
        evaluate(false, &rules, &request("https://ads.example.com.net/a", ResourceType::Image)),
        BlockingDecision::Allow
    );
    assert_eq!(evaluate(false, &rules, &request("http://ads.example.com:8080/a", ResourceType::Image)), BlockingDecision::Block);
    assert_eq!(evaluate(false, &rules, &request("ads.example.com?q=1", ResourceType::Image)), BlockingDecision::Block);
}

#[test]
fn resource_qualifier_limits_rule() {
    let rules = vec![rule("cdn.example.com", false, Some(ResourceType::Script))];
    assert_eq!(evaluate(false, &rules, &request("https://cdn.example.com/a.js", ResourceType::Script)), BlockingDecision::Block);
    assert_eq!(evaluate(false, &rules, &request("https://cdn.example.com/a.png", ResourceType::Image)), BlockingDecision::Allow);
}

#[test]
fn service_swaps_rules_wholesale() {
    let mut service = BlockingService::new(ads_rules());
    let r = request("https://ads.example.com/track.js", ResourceType::Script);
    assert_eq!(service.handle(false, &r), BlockingDecision::Block);
    assert_eq!(service.handle(true, &r), BlockingDecision::Allow);
    service.replace_rules(vec![rule("tracker.example.net", false, None)]);
    assert_eq!(service.handle(false, &r), BlockingDecision::Allow);
    assert_eq!(
        service.handle(false, &request("https://tracker.example.net/p", ResourceType::Xhr)),
        BlockingDecision::Block
    );
}

#[test]
fn missing_worker_reply_fails_open() {
    assert_eq!(decision_or_fail_open(None), BlockingDecision::Allow);
    assert_eq!(decision_or_fail_open(Some(BlockingDecision::Block)), BlockingDecision::Block);
    assert_eq!(decision_or_fail_open(Some(BlockingDecision::Allow)), BlockingDecision::Allow);
}

#[test]
fn compiled_ads_rules_block_and_except() {
    let lines = vec![
        "! ads list".to_string(),
        "||ads.example.com^".to_string(),
        "".to_string(),
        "@@||ads.example.com/safe.js".to_string(),
    ];
    let rules = compile_rules(&lines);
    assert_eq!(rules.len(), 2);
    assert_eq!(
        evaluate(false, &rules, &request("https://ads.example.com/track.js", ResourceType::Script)),
        BlockingDecision::Block
    );
    assert_eq!(
        evaluate(false, &rules, &request("https://ads.example.com/safe.js", ResourceType::Script)),
        BlockingDecision::Allow
    );
}

#[test]
fn rule_syntax() {
    let r = parse_rule("@@||cdn.example.com^$script").unwrap();
    assert_eq!(r.pattern, "cdn.example.com");
    assert!(r.exception);
    assert_eq!(r.resource, Some(ResourceType::Script));
    let r = parse_rule("tracker.example.net/pixel").unwrap();
    assert_eq!(r.pattern, "tracker.example.net/pixel");
    assert!(!r.exception);
    assert_eq!(r.resource, None);
    assert_eq!(parse_rule("||x.com$xmlhttprequest").unwrap().resource, Some(ResourceType::Xhr));
    assert!(parse_rule("||x.com$popup").is_none());
    assert!(parse_rule("! comment").is_none());
    assert!(parse_rule("").is_none());
    assert!(parse_rule("||^").is_none());
    assert!(parse_rule("@@$image").is_none());
}

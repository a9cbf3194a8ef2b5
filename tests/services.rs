use privaxy::blocker::BlockingDecision;
use privaxy::cert::{is_valid_host, plan_leaf, CachedCertificate, CertCache, CertLookup, CertificateError, RootValidity};
use privaxy::events::{Event, EventBroadcast};
use privaxy::exclusion::LocalExclusionStore;
use privaxy::statistics::Statistics;

fn event(host: &str, decision: BlockingDecision, timestamp: u64) -> Event {
    Event { host: host.to_string(), decision, timestamp }
}

#[test]
fn exclusion_add_then_remove() {
    let mut store = LocalExclusionStore::new_empty();
    assert!(!store.is_excluded("bank.example.com"));
    store.add("bank.example.com".to_string());
    assert!(store.is_excluded("bank.example.com"));
    assert!(!store.is_excluded("www.bank.example.com"));
    store.remove("bank.example.com");
    assert!(!store.is_excluded("bank.example.com"));
}

#[test]
fn exclusion_list_is_unique_and_ordered() {
    let store = LocalExclusionStore::new(vec!["b.com".to_string(), "a.com".to_string(), "b.com".to_string()]);
    assert_eq!(store.list(), vec!["b.com".to_string(), "a.com".to_string()]);
    let mut store = store;
    store.add("a.com".to_string());
    store.add("c.com".to_string());
    store.remove("b.com");
    assert_eq!(store.list(), vec!["a.com".to_string(), "c.com".to_string()]);
}

#[test]
fn statistics_tally_exactly() {
    let mut stats = Statistics::new();
    let decisions = vec![
        BlockingDecision::Allow,
        BlockingDecision::Block,
        BlockingDecision::Block,
        BlockingDecision::Allow,
        BlockingDecision::Block,
    ];
    stats.record_all(&decisions);
    stats.record(BlockingDecision::Allow);
    let s = stats.snapshot();
    assert_eq!((s.total, s.allowed, s.blocked), (6, 3, 3));
}

#[test]
fn statistics_interleaved_batches() {
    let batch_a = vec![BlockingDecision::Block, BlockingDecision::Allow, BlockingDecision::Allow];
    let batch_b = vec![BlockingDecision::Allow, BlockingDecision::Block];
    let mut one = Statistics::new();
    one.record_all(&batch_a);
    one.record_all(&batch_b);
    let mut two = Statistics::new();
    for i in 0..3 {
        two.record(batch_a[i]);
        if i < 2 {
            two.record(batch_b[i]);
        }
    }
    assert_eq!(one.snapshot(), two.snapshot());
    let s = two.snapshot();
    assert_eq!((s.total, s.allowed, s.blocked), (5, 3, 2));
}

#[test]
fn broadcast_delivers_in_order_to_early_subscriber_only() {
    let mut bus = EventBroadcast::new(32);
    let early = bus.subscribe();
    bus.publish(&event("a.com", BlockingDecision::Allow, 1));
    let late = bus.subscribe();
    bus.publish(&event("b.com", BlockingDecision::Block, 2));
    bus.publish(&event("c.com", BlockingDecision::Allow, 3));
    let mut seen = Vec::new();
    while let Some(e) = bus.receive(early) {
        seen.push((e.host, e.timestamp));
    }
    assert_eq!(seen, vec![("a.com".to_string(), 1), ("b.com".to_string(), 2), ("c.com".to_string(), 3)]);
    let mut late_seen = Vec::new();
    while let Some(e) = bus.receive(late) {
        late_seen.push(e.timestamp);
    }
    assert_eq!(late_seen, vec![2, 3]);
}

#[test]
fn broadcast_drops_oldest_when_behind() {
    let mut bus = EventBroadcast::new(2);
    let id = bus.subscribe();
    for t in 1..=5u64 {
        bus.publish(&event("x.com", BlockingDecision::Block, t));
    }
    assert_eq!(bus.receive(id).map(|e| e.timestamp), Some(4));
    assert_eq!(bus.receive(id).map(|e| e.timestamp), Some(5));
    assert!(bus.receive(id).is_none());
}

fn root() -> RootValidity {
    RootValidity { not_before: 1_000, not_after: 100_000_000 }
}

fn signed(host: &str, pem: &str) -> CachedCertificate {
    CachedCertificate {
        host: host.to_string(),
        certificate_pem: pem.to_string(),
        private_key_pem: format!("key-{pem}"),
        issued_at: 5_000,
    }
}

#[test]
fn certificate_is_reused_after_first_signing() {
    let mut cache = CertCache::new();
    let plan = match cache.get_certificate("shop.example.com", 5_000, root()) {
        Ok(CertLookup::Sign(p)) => p,
        other => panic!("expected a plan, got {:?}", other),
    };
    assert_eq!(plan.subject, "shop.example.com");
    assert_eq!(plan.not_before, 5_000);
    assert_eq!(plan.not_after, 5_000 + 31_536_000);
    assert!(plan.server_auth_only);
    let kept = cache.insert_or_keep(signed("shop.example.com", "first"));
    assert_eq!(kept.certificate_pem, "first");
    for _ in 0..2 {
        match cache.get_certificate("shop.example.com", 6_000, root()) {
            Ok(CertLookup::Cached(c)) => {
                assert_eq!(c.certificate_pem, "first");
                assert_eq!(c.host, "shop.example.com");
            }
            other => panic!("expected the cached certificate, got {:?}", other),
        }
    }
}

#[test]
fn concurrent_signers_share_first_certificate() {
    let mut cache = CertCache::new();
    let a = cache.insert_or_keep(signed("a.example", "one"));
    let b = cache.insert_or_keep(signed("a.example", "two"));
    let c = cache.insert_or_keep(signed("a.example", "three"));
    assert_eq!(a.certificate_pem, "one");
    assert_eq!(b.certificate_pem, "one");
    assert_eq!(c.certificate_pem, "one");
    let other = cache.insert_or_keep(signed("b.example", "four"));
    assert_eq!(other.certificate_pem, "four");
    assert_eq!(cache.lookup("a.example").unwrap().certificate_pem, "one");
}

#[test]
fn leaf_validity_is_capped_by_root() {
    let r = RootValidity { not_before: 0, not_after: 10_000 };
    let p = plan_leaf("example.com", 9_000, r).unwrap();
    assert_eq!((p.not_before, p.not_after), (9_000, 10_000));
    assert_eq!(plan_leaf("example.com", 10_000, r).unwrap_err(), CertificateError::RootNotValid);
    assert_eq!(plan_leaf("bad host", 5, r).unwrap_err(), CertificateError::InvalidHost);
}

#[test]
fn host_syntax() {
    assert!(is_valid_host("example.com"));
    assert!(is_valid_host("127.0.0.1"));
    assert!(is_valid_host("::1"));
    assert!(!is_valid_host(""));
    assert!(!is_valid_host(".example.com"));
    assert!(!is_valid_host("example.com."));
    assert!(!is_valid_host("a..b"));
    assert!(!is_valid_host("a_b.com"));
    assert!(is_valid_host(&"a".repeat(253)));
    assert!(!is_valid_host(&"a".repeat(254)));
}

#[test]
fn exclusion_remove_keeps_order_of_others() {
    let mut store = LocalExclusionStore::new(vec![
        "a.com".to_string(),
        "b.com".to_string(),
        "a.com".to_string(),
        "c.com".to_string(),
        "b.com".to_string(),
    ]);
    assert_eq!(store.list(), vec!["a.com".to_string(), "b.com".to_string(), "c.com".to_string()]);
    store.remove("b.com");
    assert_eq!(store.list(), vec!["a.com".to_string(), "c.com".to_string()]);
    store.remove("zzz.com");
    assert_eq!(store.list(), vec!["a.com".to_string(), "c.com".to_string()]);
}

#[test]
fn reader_keeping_up_loses_nothing() {
    let mut bus = EventBroadcast::new(1);
    let id = bus.subscribe();
    let mut seen = Vec::new();
    for t in 1..=50u64 {
        bus.publish(&event("k.com", BlockingDecision::Allow, t));
        seen.push(bus.receive(id).unwrap().timestamp);
    }
    assert_eq!(seen, (1..=50u64).collect::<Vec<_>>());
    assert!(bus.receive(id).is_none());
}

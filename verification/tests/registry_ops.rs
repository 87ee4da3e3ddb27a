use liveness_registry::registry::Outcome;
use liveness_registry::registry::Registry;
use liveness_registry::registry::DEFAULT_TTL;
use liveness_registry::registry::effective_ttl;

#[test]
fn scenario_announce_then_checks() {
    let mut r = Registry::new();
    r.upsert(String::from("svc-a"), 10, 0);
    assert_eq!(r.check("svc-a", 5), Outcome::Alive);
    assert_eq!(r.check("svc-a", 15), Outcome::Expired);
    assert_eq!(r.len(), 0);
    assert_eq!(r.check("svc-a", 16), Outcome::Unknown);
}

#[test]
fn scenario_query_without_announcement() {
    let mut r = Registry::new();
    assert_eq!(r.check("svc-c", 0), Outcome::Unknown);
    assert_eq!(r.len(), 0);
}

#[test]
fn scenario_three_names_any_order() {
    let orders: [[&str; 3]; 3] = [
        ["svc-a", "svc-b", "svc-c"],
        ["svc-c", "svc-a", "svc-b"],
        ["svc-b", "svc-c", "svc-a"],
    ];
    for order in orders.iter() {
        let mut r = Registry::new();
        for (k, name) in order.iter().enumerate() {
            r.upsert(String::from(*name), 10 + k as u64, 0);
        }
        assert_eq!(r.len(), 3);
        assert_eq!(r.name_at(0), "svc-a");
        assert_eq!(r.name_at(1), "svc-b");
        assert_eq!(r.name_at(2), "svc-c");
    }
}

#[test]
fn boundary_exact_deadline_is_alive() {
    let mut r = Registry::new();
    r.upsert(String::from("svc-a"), 10, 0);
    assert_eq!(r.check("svc-a", 10), Outcome::Alive);
    assert_eq!(r.len(), 1);
    assert_eq!(r.check("svc-a", 11), Outcome::Expired);
}

#[test]
fn lazy_eviction_expired_exactly_once() {
    let mut r = Registry::new();
    r.upsert(String::from("svc-a"), 5, 0);
    // Past its deadline the record is still resident until a check sees it.
    assert_eq!(r.deadline_of("svc-a"), Some(5));
    assert_eq!(r.len(), 1);
    assert_eq!(r.check("svc-a", 9), Outcome::Expired);
    assert_eq!(r.len(), 0);
    assert_eq!(r.check("svc-a", 9), Outcome::Unknown);
}

#[test]
fn refresh_overwrites_deadline_forward() {
    let mut r = Registry::new();
    r.upsert(String::from("svc-a"), 10, 0);
    r.upsert(String::from("svc-a"), 30, 0);
    assert_eq!(r.deadline_of("svc-a"), Some(30));
    assert_eq!(r.len(), 1);
}

#[test]
fn refresh_overwrites_deadline_backward() {
    let mut r = Registry::new();
    r.upsert(String::from("svc-a"), 30, 0);
    r.upsert(String::from("svc-a"), 10, 0);
    assert_eq!(r.deadline_of("svc-a"), Some(10));
    assert_eq!(r.len(), 1);
}

#[test]
fn uniqueness_one_record_per_name() {
    let mut r = Registry::new();
    for k in 0..5u64 {
        r.upsert(String::from("svc-a"), 10 + k, k);
    }
    assert_eq!(r.len(), 1);
    assert_eq!(r.deadline_of("svc-a"), Some(4 + 14));
}

#[test]
fn order_kept_after_mixed_calls() {
    let mut r = Registry::new();
    r.upsert(String::from("svc-m"), 10, 0);
    r.upsert(String::from("svc-a"), 1, 0);
    r.upsert(String::from("svc-z"), 10, 0);
    assert_eq!(r.check("svc-a", 5), Outcome::Expired);
    r.upsert(String::from("svc-k"), 10, 0);
    r.upsert(String::from("svc-m"), 20, 0);
    assert_eq!(r.len(), 3);
    assert_eq!(r.name_at(0), "svc-k");
    assert_eq!(r.name_at(1), "svc-m");
    assert_eq!(r.name_at(2), "svc-z");
    assert_eq!(r.deadline_of("svc-m"), Some(20));
}

#[test]
fn deadline_of_unknown_name() {
    let r = Registry::new();
    assert_eq!(r.deadline_of("svc-a"), None);
}

#[test]
fn effective_ttl_falls_back_to_default() {
    assert_eq!(effective_ttl(None), DEFAULT_TTL);
    assert_eq!(effective_ttl(None), 15);
    assert_eq!(effective_ttl(Some(7)), 7);
    assert_eq!(effective_ttl(Some(0)), 0);
}

use dns_balancer::models::Ipv4Address;
use dns_balancer::models::ServiceTarget;
use dns_balancer::models::ServiceUri;
use dns_balancer::reconcile::CreateRecordParams;
use dns_balancer::reconcile::RecordContent;
use dns_balancer::reconcile::RemoteRecord;
use dns_balancer::reconcile::plan_add;
use dns_balancer::reconcile::plan_remove;
use dns_balancer::reconcile::distinct_zone_dns;

fn target(ip: Ipv4Address, zone: &str, dns: &str) -> ServiceTarget {
    ServiceTarget {
        target: ip,
        check: ServiceUri::TcpProbe(443),
        zone: zone.to_string(),
        dns: dns.to_string(),
        response_threshold_ms: None,
    }
}

fn a_record(id: &str, name: &str, ip: Ipv4Address) -> RemoteRecord {
    RemoteRecord {
        id: id.to_string(),
        name: name.to_string(),
        content: RecordContent::A(ip),
    }
}

#[test]
fn add_is_idempotent_when_a_record_matches() {
    let t = target(Ipv4Address::new(192, 168, 1, 5), "z", "api.example.com");
    let records = vec![
        a_record("r1", "api.example.com", Ipv4Address::new(192, 168, 1, 4)),
        a_record("r2", "api.example.com", Ipv4Address::new(192, 168, 1, 5)),
    ];
    assert!(plan_add(&records, &t).is_none());
}

#[test]
fn add_creates_exactly_one_proxied_record_when_absent() {
    let t = target(Ipv4Address::new(192, 168, 1, 5), "z", "api.example.com");
    let records = vec![a_record("r1", "api.example.com", Ipv4Address::new(192, 168, 1, 4))];
    let created: CreateRecordParams = plan_add(&records, &t).unwrap();
    assert_eq!(created.name, "api.example.com".to_string());
    assert_eq!(created.content, Ipv4Address::new(192, 168, 1, 5));
    assert!(created.proxied);
}

#[test]
fn add_ignores_records_that_are_not_a_records() {
    let t = target(Ipv4Address::new(192, 168, 1, 5), "z", "api.example.com");
    let records = vec![RemoteRecord {
        id: "r1".to_string(),
        name: "api.example.com".to_string(),
        content: RecordContent::Other,
    }];
    assert!(plan_add(&records, &t).is_some());
}

#[test]
fn remove_without_match_issues_no_delete() {
    let t = target(Ipv4Address::new(192, 168, 1, 5), "z", "api.example.com");
    let records = vec![a_record("r1", "api.example.com", Ipv4Address::new(192, 168, 1, 4))];
    assert!(plan_remove(&records, &t).is_none());
}

#[test]
fn remove_picks_the_first_matching_record() {
    let t = target(Ipv4Address::new(192, 168, 1, 5), "z", "api.example.com");
    let records = vec![
        a_record("r1", "api.example.com", Ipv4Address::new(192, 168, 1, 4)),
        a_record("r2", "api.example.com", Ipv4Address::new(192, 168, 1, 5)),
        a_record("r3", "api.example.com", Ipv4Address::new(192, 168, 1, 5)),
    ];
    let idx = plan_remove(&records, &t).unwrap();
    assert_eq!(idx, 1);
    assert_eq!(records[idx].id, "r2".to_string());
}

#[test]
fn distinct_zone_dns_collapses_duplicates() {
    let targets = vec![
        target(Ipv4Address::new(10, 0, 0, 1), "z1", "api.example.com"),
        target(Ipv4Address::new(10, 0, 0, 2), "z1", "api.example.com"),
        target(Ipv4Address::new(10, 0, 0, 3), "z2", "api.example.com"),
        target(Ipv4Address::new(10, 0, 0, 4), "z1", "web.example.com"),
    ];
    let pairs = distinct_zone_dns(&targets);
    assert_eq!(
        pairs,
        vec![
            ("z1".to_string(), "api.example.com".to_string()),
            ("z2".to_string(), "api.example.com".to_string()),
            ("z1".to_string(), "web.example.com".to_string()),
        ]
    );
}

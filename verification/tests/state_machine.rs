use dns_balancer::health_checker::HealthChecker;
use dns_balancer::health_checker::ReconcileOp;
use dns_balancer::health_checker::TransitionEvent;
use dns_balancer::models::Ipv4Address;
use dns_balancer::models::ServiceTarget;
use dns_balancer::models::ServiceUri;
use dns_balancer::reconcile::ZoneListing;

fn target(ip: Ipv4Address, dns: &str) -> ServiceTarget {
    ServiceTarget {
        target: ip,
        check: ServiceUri::Icmp,
        zone: "zone-1".to_string(),
        dns: dns.to_string(),
        response_threshold_ms: None,
    }
}

#[test]
fn down_with_sibling_excludes_and_removes() {
    let t1 = target(Ipv4Address::new(10, 0, 0, 1), "api.example.com");
    let t2 = target(Ipv4Address::new(10, 0, 0, 2), "api.example.com");
    let mut hc = HealthChecker::new(vec![t1.clone(), t2]);
    let outcome = hc.handle_target_down(&t1);
    assert_eq!(outcome.op, Some(ReconcileOp::Remove));
    assert_eq!(outcome.event, TransitionEvent::WentUnavailable);
    assert_eq!(hc.unavailable, vec![Ipv4Address::new(10, 0, 0, 1)]);
}

#[test]
fn down_as_last_survivor_keeps_target() {
    let t1 = target(Ipv4Address::new(10, 0, 0, 1), "api.example.com");
    let mut hc = HealthChecker::new(vec![t1.clone()]);
    let outcome = hc.handle_target_down(&t1);
    assert_eq!(outcome.op, None);
    assert_eq!(outcome.event, TransitionEvent::LastSurvivorKept);
    assert!(hc.unavailable.is_empty());
}

#[test]
fn down_spares_last_member_when_siblings_already_excluded() {
    let t1 = target(Ipv4Address::new(10, 0, 0, 1), "api.example.com");
    let t2 = target(Ipv4Address::new(10, 0, 0, 2), "api.example.com");
    let mut hc = HealthChecker::new(vec![t1.clone(), t2.clone()]);
    assert_eq!(hc.handle_target_down(&t1).op, Some(ReconcileOp::Remove));
    let outcome = hc.handle_target_down(&t2);
    assert_eq!(outcome.op, None);
    assert_eq!(outcome.event, TransitionEvent::LastSurvivorKept);
    assert_eq!(hc.unavailable, vec![Ipv4Address::new(10, 0, 0, 1)]);
}

#[test]
fn down_while_already_excluded_is_a_no_op() {
    let t1 = target(Ipv4Address::new(10, 0, 0, 1), "api.example.com");
    let t2 = target(Ipv4Address::new(10, 0, 0, 2), "api.example.com");
    let mut hc = HealthChecker::new(vec![t1.clone(), t2]);
    hc.handle_target_down(&t1);
    let outcome = hc.handle_target_down(&t1);
    assert_eq!(outcome.op, None);
    assert_eq!(outcome.event, TransitionEvent::NoChange);
    assert_eq!(hc.unavailable, vec![Ipv4Address::new(10, 0, 0, 1)]);
}

#[test]
fn up_after_exclusion_adds_once_then_idles() {
    let t1 = target(Ipv4Address::new(10, 0, 0, 1), "api.example.com");
    let t2 = target(Ipv4Address::new(10, 0, 0, 2), "api.example.com");
    let mut hc = HealthChecker::new(vec![t1.clone(), t2]);
    hc.handle_target_down(&t1);
    let first = hc.handle_target_up(&t1);
    assert_eq!(first.op, Some(ReconcileOp::Add));
    assert_eq!(first.event, TransitionEvent::BecameAvailable);
    assert!(hc.unavailable.is_empty());
    let second = hc.handle_target_up(&t1);
    assert_eq!(second.op, None);
    assert_eq!(second.event, TransitionEvent::NoChange);
    assert!(hc.unavailable.is_empty());
}

#[test]
fn up_while_available_is_a_no_op() {
    let t1 = target(Ipv4Address::new(10, 0, 0, 1), "api.example.com");
    let mut hc = HealthChecker::new(vec![t1.clone()]);
    let outcome = hc.handle_target_up(&t1);
    assert_eq!(outcome.op, None);
    assert_eq!(outcome.event, TransitionEvent::NoChange);
    assert!(hc.unavailable.is_empty());
}

#[test]
fn round_with_three_targets_excludes_only_the_unhealthy_one() {
    let t1 = target(Ipv4Address::new(10, 0, 0, 1), "api.example.com");
    let t2 = target(Ipv4Address::new(10, 0, 0, 2), "api.example.com");
    let t3 = target(Ipv4Address::new(10, 0, 0, 3), "api.example.com");
    let mut hc = HealthChecker::new(vec![t1, t2, t3]);
    let outcomes = hc.process_round(&vec![true, false, true]);
    assert_eq!(outcomes.len(), 3);
    assert_eq!(outcomes[0].op, None);
    assert_eq!(outcomes[0].event, TransitionEvent::NoChange);
    assert_eq!(outcomes[1].op, Some(ReconcileOp::Remove));
    assert_eq!(outcomes[1].event, TransitionEvent::WentUnavailable);
    assert_eq!(outcomes[2].op, None);
    assert_eq!(outcomes[2].event, TransitionEvent::NoChange);
    assert_eq!(hc.unavailable, vec![Ipv4Address::new(10, 0, 0, 2)]);
    assert_eq!(hc.available_count(), 2);
}

#[test]
fn round_with_single_target_group_never_empties_the_group() {
    let t1 = target(Ipv4Address::new(10, 0, 0, 1), "solo.example.com");
    let mut hc = HealthChecker::new(vec![t1]);
    let outcomes = hc.process_round(&vec![false]);
    assert_eq!(outcomes.len(), 1);
    assert_eq!(outcomes[0].op, None);
    assert_eq!(outcomes[0].event, TransitionEvent::LastSurvivorKept);
    assert!(hc.unavailable.is_empty());
    assert_eq!(hc.available_count(), 1);
}

#[test]
fn rounds_only_couple_targets_of_the_same_dns_name() {
    let t1 = target(Ipv4Address::new(10, 0, 0, 1), "a.example.com");
    let t2 = target(Ipv4Address::new(10, 0, 0, 2), "b.example.com");
    let mut hc = HealthChecker::new(vec![t1, t2]);
    let outcomes = hc.process_round(&vec![false, false]);
    assert_eq!(outcomes[0].event, TransitionEvent::LastSurvivorKept);
    assert_eq!(outcomes[1].event, TransitionEvent::LastSurvivorKept);
    assert_eq!(hc.available_count(), 2);
}

#[test]
fn startup_reconcile_seeds_targets_without_matching_records() {
    let t1 = target(Ipv4Address::new(10, 0, 0, 1), "api.example.com");
    let t2 = target(Ipv4Address::new(10, 0, 0, 2), "api.example.com");
    let mut hc = HealthChecker::new(vec![t1, t2]);
    let listings = vec![
        ZoneListing {
            zone: "zone-1".to_string(),
            dns: "api.example.com".to_string(),
            addresses: vec![Ipv4Address::new(10, 0, 0, 1)],
        },
    ];
    hc.startup_reconcile(&listings);
    assert_eq!(hc.unavailable, vec![Ipv4Address::new(10, 0, 0, 2)]);
    assert_eq!(hc.available_count(), 1);
}

#[test]
fn startup_reconcile_with_no_listings_assumes_everything_unavailable() {
    let t1 = target(Ipv4Address::new(10, 0, 0, 1), "api.example.com");
    let mut hc = HealthChecker::new(vec![t1]);
    hc.startup_reconcile(&Vec::new());
    assert_eq!(hc.unavailable, vec![Ipv4Address::new(10, 0, 0, 1)]);
    assert_eq!(hc.available_count(), 0);
}

#[test]
fn startup_reconcile_matches_zone_and_name_exactly() {
    let t1 = target(Ipv4Address::new(10, 0, 0, 1), "api.example.com");
    let mut hc = HealthChecker::new(vec![t1]);
    let listings = vec![
        ZoneListing {
            zone: "another-zone".to_string(),
            dns: "api.example.com".to_string(),
            addresses: vec![Ipv4Address::new(10, 0, 0, 1)],
        },
    ];
    hc.startup_reconcile(&listings);
    assert_eq!(hc.unavailable, vec![Ipv4Address::new(10, 0, 0, 1)]);
}

#[test]
fn shared_addresses_are_excluded_together() {
    let a1 = target(Ipv4Address::new(10, 0, 0, 1), "a.example.com");
    let a2 = target(Ipv4Address::new(10, 0, 0, 2), "a.example.com");
    let b1 = target(Ipv4Address::new(10, 0, 0, 1), "b.example.com");
    let mut hc = HealthChecker::new(vec![a1.clone(), a2, b1]);
    let outcome = hc.handle_target_down(&a1);
    assert_eq!(outcome.op, Some(ReconcileOp::Remove));
    // Exclusion is tracked per address, so b.example.com's member with the
    // same address counts as excluded too.
    assert_eq!(hc.available_count(), 1);
}

#[test]
fn recovered_target_is_advertised_after_startup_seed() {
    let t1 = target(Ipv4Address::new(10, 0, 0, 1), "api.example.com");
    let t2 = target(Ipv4Address::new(10, 0, 0, 2), "api.example.com");
    let mut hc = HealthChecker::new(vec![t1, t2]);
    hc.startup_reconcile(&Vec::new());
    assert_eq!(hc.available_count(), 0);
    let outcomes = hc.process_round(&vec![true, true]);
    assert_eq!(outcomes[0].op, Some(ReconcileOp::Add));
    assert_eq!(outcomes[1].op, Some(ReconcileOp::Add));
    assert!(hc.unavailable.is_empty());
    assert_eq!(hc.available_count(), 2);
}

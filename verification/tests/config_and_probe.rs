use dns_balancer::config::Config;
use dns_balancer::config::ConfigError;
use dns_balancer::decimal::u64_to_decimal;
use dns_balancer::models::Ipv4Address;
use dns_balancer::models::SerializedServiceTarget;
use dns_balancer::models::SerializedServiceUri;
use dns_balancer::models::ServiceUri;
use dns_balancer::probe::build_http_uri;
use dns_balancer::probe::is_success_status;
use dns_balancer::probe::icmp_probe_healthy;
use dns_balancer::probe::probe_timeout_ms;
use dns_balancer::probe::sleep_duration_ms;
use dns_balancer::probe::tcp_probe_healthy;

fn uri(kind: &str, port: Option<u16>, method: Option<&str>, route: Option<&str>) -> SerializedServiceUri {
    SerializedServiceUri {
        service_type: kind.to_string(),
        port,
        method: method.map(|m| m.to_string()),
        route: route.map(|r| r.to_string()),
    }
}

fn record(ip: &str, kind: &str, port: Option<u16>) -> SerializedServiceTarget {
    SerializedServiceTarget {
        ip: ip.to_string(),
        cf_zone: "zone-1".to_string(),
        cf_dns: "api.example.com".to_string(),
        check: uri(kind, port, None, None),
        response_threshold_ms: Some(500),
    }
}

#[test]
fn ipv4_parse_accepts_canonical_quads() {
    assert_eq!(Ipv4Address::parse("0.0.0.0"), Some(Ipv4Address::new(0, 0, 0, 0)));
    assert_eq!(Ipv4Address::parse("10.0.0.1"), Some(Ipv4Address::new(10, 0, 0, 1)));
    assert_eq!(
        Ipv4Address::parse("255.255.255.255"),
        Some(Ipv4Address::new(255, 255, 255, 255))
    );
}

#[test]
fn ipv4_parse_rejects_everything_else() {
    assert_eq!(Ipv4Address::parse(""), None);
    assert_eq!(Ipv4Address::parse("1.2.3"), None);
    assert_eq!(Ipv4Address::parse("1.2.3.4.5"), None);
    assert_eq!(Ipv4Address::parse("256.1.1.1"), None);
    assert_eq!(Ipv4Address::parse("01.2.3.4"), None);
    assert_eq!(Ipv4Address::parse("1.2.3.4 "), None);
    assert_eq!(Ipv4Address::parse("a.b.c.d"), None);
    assert_eq!(Ipv4Address::parse("1..2.3"), None);
}

#[test]
fn ipv4_renders_and_parses_back() {
    let ip = Ipv4Address::new(172, 16, 254, 3);
    let text = ip.to_dotted();
    assert_eq!(text, "172.16.254.3".to_string());
    assert_eq!(Ipv4Address::parse(&text), Some(ip));
}

#[test]
fn decimal_rendering_has_no_leading_zeros() {
    assert_eq!(u64_to_decimal(0), "0".to_string());
    assert_eq!(u64_to_decimal(7), "7".to_string());
    assert_eq!(u64_to_decimal(255), "255".to_string());
    assert_eq!(u64_to_decimal(12345), "12345".to_string());
}

#[test]
fn service_type_is_matched_without_regard_to_case() {
    assert_eq!(Config::parse_service_uri(&uri("ICMP", None, None, None)), Ok(ServiceUri::Icmp));
    assert_eq!(
        Config::parse_service_uri(&uri("TcpProbe", Some(22), None, None)),
        Ok(ServiceUri::TcpProbe(22))
    );
}

#[test]
fn http_probe_defaults_method_and_route() {
    let parsed = Config::parse_service_uri(&uri("http", Some(8080), None, None)).unwrap();
    assert_eq!(parsed, ServiceUri::Http(8080, "GET".to_string(), "/".to_string()));
}

#[test]
fn https_probe_keeps_method_and_prepends_missing_slash() {
    let parsed =
        Config::parse_service_uri(&uri("https", Some(443), Some("HEAD"), Some("health"))).unwrap();
    assert_eq!(parsed, ServiceUri::HttpSecure(443, "HEAD".to_string(), "/health".to_string()));
}

#[test]
fn route_with_slash_is_kept_as_given() {
    let parsed =
        Config::parse_service_uri(&uri("http", Some(80), Some("POST"), Some("/ping"))).unwrap();
    assert_eq!(parsed, ServiceUri::Http(80, "POST".to_string(), "/ping".to_string()));
}

#[test]
fn unknown_service_type_is_fatal() {
    assert_eq!(
        Config::parse_service_uri(&uri("udp", Some(53), None, None)),
        Err(ConfigError::UnknownServiceType)
    );
}

#[test]
fn missing_port_is_fatal_for_tcp_and_http() {
    assert_eq!(
        Config::parse_service_uri(&uri("tcpprobe", None, None, None)),
        Err(ConfigError::MissingPort)
    );
    assert_eq!(
        Config::parse_service_uri(&uri("http", None, None, None)),
        Err(ConfigError::MissingPort)
    );
}

#[test]
fn invalid_method_is_fatal() {
    assert_eq!(
        Config::parse_service_uri(&uri("http", Some(80), Some("GE T"), None)),
        Err(ConfigError::InvalidMethod)
    );
    assert_eq!(
        Config::parse_service_uri(&uri("http", Some(80), Some(""), None)),
        Err(ConfigError::InvalidMethod)
    );
}

#[test]
fn read_service_targets_converts_every_record() {
    let parsed = vec![record("10.0.0.1", "icmp", None), record("10.0.0.2", "tcpprobe", Some(22))];
    let targets = Config::read_service_targets(&parsed).unwrap();
    assert_eq!(targets.len(), 2);
    assert_eq!(targets[0].target, Ipv4Address::new(10, 0, 0, 1));
    assert_eq!(targets[0].check, ServiceUri::Icmp);
    assert_eq!(targets[0].zone, "zone-1".to_string());
    assert_eq!(targets[0].dns, "api.example.com".to_string());
    assert_eq!(targets[0].response_threshold_ms, Some(500));
    assert_eq!(targets[1].check, ServiceUri::TcpProbe(22));
}

#[test]
fn read_service_targets_reports_the_first_bad_record() {
    let parsed = vec![
        record("10.0.0.1", "icmp", None),
        record("300.0.0.1", "icmp", None),
        record("10.0.0.3", "udp", None),
    ];
    assert_eq!(Config::read_service_targets(&parsed), Err(ConfigError::InvalidIp));
}

#[test]
fn probe_timeout_defaults_to_one_second() {
    assert_eq!(probe_timeout_ms(None), 1000);
    assert_eq!(probe_timeout_ms(Some(250)), 250);
}

#[test]
fn only_the_success_range_counts_as_healthy() {
    assert!(is_success_status(200));
    assert!(is_success_status(204));
    assert!(is_success_status(299));
    assert!(!is_success_status(199));
    assert!(!is_success_status(300));
    assert!(!is_success_status(301));
    assert!(!is_success_status(500));
    assert!(!is_success_status(0));
}

#[test]
fn tcp_probe_requires_connection_strictly_before_deadline() {
    assert!(tcp_probe_healthy(true, 999, 1000));
    assert!(!tcp_probe_healthy(true, 1000, 1000));
    assert!(!tcp_probe_healthy(true, 1500, 1000));
    assert!(!tcp_probe_healthy(false, 1, 1000));
}

#[test]
fn icmp_probe_needs_at_least_one_reply() {
    assert!(icmp_probe_healthy(1));
    assert!(icmp_probe_healthy(3));
    assert!(!icmp_probe_healthy(0));
}

#[test]
fn overrunning_rounds_sleep_zero_not_negative() {
    assert_eq!(sleep_duration_ms(30_000, 45_000), 0);
    assert_eq!(sleep_duration_ms(30_000, 30_000), 0);
    assert_eq!(sleep_duration_ms(30_000, 1_000), 29_000);
    assert_eq!(sleep_duration_ms(30_000, 0), 30_000);
}

#[test]
fn probe_urls_carry_scheme_address_port_and_route() {
    let ip = Ipv4Address::new(10, 0, 0, 1);
    assert_eq!(build_http_uri(false, ip, 8080, "/health"), "http://10.0.0.1:8080/health".to_string());
    assert_eq!(build_http_uri(true, ip, 443, "/"), "https://10.0.0.1:443/".to_string());
    assert_eq!(build_http_uri(false, ip, 80, "status"), "http://10.0.0.1:80/status".to_string());
}

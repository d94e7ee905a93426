use std::collections::BTreeSet;

use gaia_gmn::discovery::{
    host_name, instance_name, join_addresses, next_instance_number, parse_instance_number,
    ServiceRole,
};

#[test]
fn service_types_and_prefixes() {
    assert_eq!(ServiceRole::Capture.service_type(), "_gaia-gmn-cap._tcp.local.");
    assert_eq!(ServiceRole::Processing.service_type(), "_gaia-gmn-proc._tcp.local.");
    assert_eq!(ServiceRole::Web.service_type(), "_gaia-gmn-web._tcp.local.");
    assert_eq!(ServiceRole::Capture.prefix(), "gaia-gmn-capture");
    assert_eq!(ServiceRole::Processing.prefix(), "gaia-gmn-processing");
    assert_eq!(ServiceRole::Web.prefix(), "gaia-gmn-web");
}

#[test]
fn service_type_labels_fit_dns_sd_limit() {
    for role in [ServiceRole::Capture, ServiceRole::Processing, ServiceRole::Web] {
        let t = role.service_type();
        let label = t.split('.').next().unwrap();
        assert!(label.len() <= 16, "{label}");
    }
}

#[test]
fn parse_instance_number_reads_first_label() {
    assert_eq!(
        parse_instance_number("gaia-gmn-capture-02._gaia-gmn-cap._tcp.local.", "gaia-gmn-capture"),
        Some(2)
    );
    assert_eq!(parse_instance_number("gaia-gmn-capture-17", "gaia-gmn-capture"), Some(17));
    assert_eq!(parse_instance_number("gaia-gmn-web-+3.x", "gaia-gmn-web"), Some(3));
}

#[test]
fn parse_instance_number_rejects_other_names() {
    let p = "gaia-gmn-capture";
    assert_eq!(parse_instance_number("gaia-gmn-capture._gaia-gmn-cap._tcp.local.", p), None);
    assert_eq!(parse_instance_number("gaia-gmn-capture-._tcp.local.", p), None);
    assert_eq!(parse_instance_number("gaia-gmn-capturex-1._tcp.local.", p), None);
    assert_eq!(parse_instance_number("gaia-gmn-capture-ab._tcp.local.", p), None);
    assert_eq!(parse_instance_number("gaia-gmn-web-01._gaia-gmn-web._tcp.local.", p), None);
    assert_eq!(parse_instance_number("gaia-gmn-capture-4294967296.x", p), None);
    assert_eq!(parse_instance_number("", p), None);
}

#[test]
fn instance_names_are_zero_padded() {
    assert_eq!(instance_name(ServiceRole::Capture, 1), "gaia-gmn-capture-01");
    assert_eq!(instance_name(ServiceRole::Web, 12), "gaia-gmn-web-12");
    assert_eq!(instance_name(ServiceRole::Processing, 123), "gaia-gmn-processing-123");
    assert_eq!(host_name("gaia-gmn-capture-01"), "gaia-gmn-capture-01.local.");
}

#[test]
fn instance_name_reads_back() {
    for role in [ServiceRole::Capture, ServiceRole::Processing, ServiceRole::Web] {
        for n in [0u32, 1, 9, 10, 99, 100, 4294967295] {
            let name = instance_name(role, n);
            let full = format!("{}.{}", name, role.service_type());
            assert_eq!(parse_instance_number(&full, role.prefix()), Some(n));
        }
    }
}

#[test]
fn next_instance_number_takes_first_gap() {
    let mut existing = BTreeSet::new();
    assert_eq!(next_instance_number(&existing), 1);
    existing.insert(1);
    existing.insert(2);
    existing.insert(4);
    assert_eq!(next_instance_number(&existing), 3);
    existing.insert(3);
    assert_eq!(next_instance_number(&existing), 5);
    let mut other = BTreeSet::new();
    other.insert(0);
    other.insert(2);
    assert_eq!(next_instance_number(&other), 1);
}

#[test]
fn addresses_join_with_commas() {
    assert_eq!(join_addresses(&vec![]), "");
    assert_eq!(join_addresses(&vec!["192.168.1.5".to_string()]), "192.168.1.5");
    assert_eq!(
        join_addresses(&vec!["192.168.1.5".to_string(), "fe80::1".to_string()]),
        "192.168.1.5,fe80::1"
    );
}

use netsweep::inventory::NetworkRecord;
use netsweep::lines::{format_record, parse_record_line};

fn rec(name: &str, link: &str) -> NetworkRecord {
    NetworkRecord { name: name.to_string(), link_address: link.to_string() }
}

#[test]
fn format_record_joins_with_semicolon() {
    assert_eq!(format_record(&rec("Home", "aa:bb:cc")), "Home;aa:bb:cc");
    assert_eq!(format_record(&rec("Cafe", "(sin BSSID)")), "Cafe;(sin BSSID)");
}

#[test]
fn parse_record_line_splits_at_first_semicolon() {
    let r = parse_record_line("Home;aa:bb:cc").unwrap();
    assert_eq!(r.name, "Home");
    assert_eq!(r.link_address, "aa:bb:cc");
    let odd = parse_record_line("a;b;c").unwrap();
    assert_eq!(odd.name, "a");
    assert_eq!(odd.link_address, "b;c");
}

#[test]
fn parse_record_line_without_separator_has_empty_link() {
    let r = parse_record_line("JustAName").unwrap();
    assert_eq!(r.name, "JustAName");
    assert_eq!(r.link_address, "");
}

#[test]
fn parse_record_line_skips_blank_names() {
    assert!(parse_record_line("").is_none());
    assert!(parse_record_line("   ").is_none());
    assert!(parse_record_line(";aa:bb").is_none());
    assert!(parse_record_line(" \t ;aa:bb").is_none());
}

#[test]
fn record_line_round_trip() {
    let original = rec("My Net", "12:34:56:78:9a:bc");
    let back = parse_record_line(&format_record(&original)).unwrap();
    assert_eq!(back.name, original.name);
    assert_eq!(back.link_address, original.link_address);
}

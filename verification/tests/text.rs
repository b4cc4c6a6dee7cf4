use netsweep::text::{format_cidr, format_ipv4, parse_ipv4, parse_subnet};

#[test]
fn format_ipv4_writes_dotted_quad() {
    assert_eq!(format_ipv4(0xC0A8_0101), "192.168.1.1");
    assert_eq!(format_ipv4(0), "0.0.0.0");
    assert_eq!(format_ipv4(0xFFFF_FFFF), "255.255.255.255");
    assert_eq!(format_ipv4(0x0A00_002A), "10.0.0.42");
}

#[test]
fn parse_ipv4_reads_canonical_quads() {
    assert_eq!(parse_ipv4("192.168.1.1").unwrap(), 0xC0A8_0101);
    assert_eq!(parse_ipv4("0.0.0.0").unwrap(), 0);
    assert_eq!(parse_ipv4("255.255.255.255").unwrap(), 0xFFFF_FFFF);
    assert_eq!(parse_ipv4("1.2.3.4").unwrap(), 0x0102_0304);
}

#[test]
fn parse_ipv4_rejects_malformed_input() {
    assert!(parse_ipv4("").is_err());
    assert!(parse_ipv4("1.2.3").is_err());
    assert!(parse_ipv4("1.2.3.4.5").is_err());
    assert!(parse_ipv4("256.1.1.1").is_err());
    assert!(parse_ipv4("01.2.3.4").is_err());
    assert!(parse_ipv4("1..2.3").is_err());
    assert!(parse_ipv4("a.b.c.d").is_err());
    assert!(parse_ipv4("1.2.3.4 ").is_err());
    assert!(parse_ipv4(" 1.2.3.4").is_err());
    assert!(parse_ipv4("1.2.3.").is_err());
}

#[test]
fn ipv4_round_trip() {
    for &a in &[0u32, 1, 0xC0A8_0101, 0x0A25_81C8, 0xFFFF_FFFE, 0xFFFF_FFFF] {
        assert_eq!(parse_ipv4(&format_ipv4(a)).unwrap(), a);
    }
}

#[test]
fn parse_subnet_masks_to_network() {
    let s = parse_subnet("192.168.1.0/24").unwrap();
    assert_eq!(s.network, 0xC0A8_0100);
    assert_eq!(s.prefix, 24);
    // a host address names the same block
    let t = parse_subnet("192.168.1.10/24").unwrap();
    assert_eq!(t.network, 0xC0A8_0100);
    assert_eq!(t.prefix, 24);
}

#[test]
fn parse_subnet_accepts_edge_prefixes() {
    let zero = parse_subnet("0.0.0.0/0").unwrap();
    assert_eq!(zero.network, 0);
    assert_eq!(zero.prefix, 0);
    let full = parse_subnet("10.1.2.3/32").unwrap();
    assert_eq!(full.network, 0x0A01_0203);
    assert_eq!(full.prefix, 32);
}

#[test]
fn parse_subnet_rejects_malformed_input() {
    assert!(parse_subnet("192.168.1.0").is_err());
    assert!(parse_subnet("192.168.1.0/").is_err());
    assert!(parse_subnet("192.168.1.0/33").is_err());
    assert!(parse_subnet("192.168.1.0/08").is_err());
    assert!(parse_subnet("192.168.1.0/a").is_err());
    assert!(parse_subnet("/24").is_err());
    assert!(parse_subnet("192.168.1.0/24/7").is_err());
}

#[test]
fn cidr_round_trip() {
    let s = parse_subnet("172.16.0.0/12").unwrap();
    assert_eq!(format_cidr(&s), "172.16.0.0/12");
}

use netsweep::hosts::{enumerate_hosts, host_count};
use netsweep::subnet::compute_subnet;

#[test]
fn slash_24_has_254_ascending_hosts() {
    let s = compute_subnet(0xC0A8_0100, 24);
    let hosts = enumerate_hosts(&s);
    assert_eq!(hosts.len(), 254);
    assert_eq!(hosts[0], 0xC0A8_0101); // 192.168.1.1
    assert_eq!(hosts[253], 0xC0A8_01FE); // 192.168.1.254
    for w in hosts.windows(2) {
        assert!(w[0] < w[1]);
    }
}

#[test]
fn slash_31_yields_no_hosts() {
    let s = compute_subnet(0x0A00_0000, 31);
    assert_eq!(host_count(&s), 0);
    assert!(enumerate_hosts(&s).is_empty());
}

#[test]
fn slash_32_yields_no_hosts() {
    let s = compute_subnet(0x0A00_0000, 32);
    assert_eq!(host_count(&s), 0);
    assert!(enumerate_hosts(&s).is_empty());
}

#[test]
fn slash_30_yields_two_hosts() {
    let s = compute_subnet(0xC0A8_0100, 30);
    let hosts = enumerate_hosts(&s);
    assert_eq!(hosts.len(), 2);
    assert_eq!(hosts[0], 0xC0A8_0101);
    assert_eq!(hosts[1], 0xC0A8_0102);
}

#[test]
fn host_count_matches_power_of_two_formula() {
    for p in 0..=30u8 {
        let s = compute_subnet(0, p);
        let expected = (1u64 << (32 - p)) - 2;
        assert_eq!(host_count(&s) as u64, expected);
    }
}

use netsweep::subnet::compute_subnet;
use netsweep::text::format_cidr;

#[test]
fn compute_subnet_masks_host_bits() {
    // 192.168.1.10/24 -> 192.168.1.0
    let s = compute_subnet(0xC0A8_010A, 24);
    assert_eq!(s.network, 0xC0A8_0100);
    assert_eq!(s.prefix, 24);
}

#[test]
fn compute_subnet_zero_prefix_is_zero_network() {
    let s = compute_subnet(0xC0A8_010A, 0);
    assert_eq!(s.network, 0);
    assert_eq!(s.prefix, 0);
}

#[test]
fn compute_subnet_full_prefix_keeps_address() {
    let s = compute_subnet(0xC0A8_010A, 32);
    assert_eq!(s.network, 0xC0A8_010A);
    assert_eq!(s.prefix, 32);
}

#[test]
fn compute_subnet_mid_prefix() {
    // 10.37.129.200/20 -> 10.37.128.0
    let s = compute_subnet(0x0A25_81C8, 20);
    assert_eq!(s.network, 0x0A25_8000);
}

#[test]
fn cidr_text_of_computed_subnet() {
    let s = compute_subnet(0xC0A8_010A, 24);
    assert_eq!(format_cidr(&s), "192.168.1.0/24");
    let t = compute_subnet(0x0A00_0001, 8);
    assert_eq!(format_cidr(&t), "10.0.0.0/8");
}

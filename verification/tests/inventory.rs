use netsweep::inventory::{merge, str_lt, unknown_link, NetworkRecord};

fn rec(name: &str, link: &str) -> NetworkRecord {
    NetworkRecord { name: name.to_string(), link_address: link.to_string() }
}

fn names(v: &[&str]) -> Vec<String> {
    v.iter().map(|s| s.to_string()).collect()
}

#[test]
fn merge_keeps_primary_link_and_appends_unknown() {
    let primary = vec![rec("A", "aa:aa")];
    let secondary = names(&["B", "A"]);
    let merged = merge(&primary, &secondary);
    assert_eq!(merged.len(), 2);
    assert_eq!(merged[0].name, "A");
    assert_eq!(merged[0].link_address, "aa:aa");
    assert_eq!(merged[1].name, "B");
    assert_eq!(merged[1].link_address, unknown_link());
}

#[test]
fn merge_with_own_names_changes_nothing() {
    let primary = vec![rec("Cafe", "11:22"), rec("Home", "aa:bb")];
    let secondary = names(&["Office"]);
    let inv = merge(&primary, &secondary);
    let own_names: Vec<String> = inv.iter().map(|r| r.name.clone()).collect();
    let again = merge(&inv, &own_names);
    assert_eq!(again.len(), inv.len());
    for (a, b) in again.iter().zip(inv.iter()) {
        assert_eq!(a.name, b.name);
        assert_eq!(a.link_address, b.link_address);
    }
}

#[test]
fn merge_sorts_by_name() {
    let primary = vec![rec("zeta", "zz"), rec("alpha", "aa")];
    let secondary = names(&["mid"]);
    let merged = merge(&primary, &secondary);
    assert_eq!(merged.len(), 3);
    assert_eq!(merged[0].name, "alpha");
    assert_eq!(merged[1].name, "mid");
    assert_eq!(merged[2].name, "zeta");
}

#[test]
fn merge_deduplicates_secondary() {
    let primary: Vec<NetworkRecord> = vec![];
    let secondary = names(&["N", "N", "N"]);
    let merged = merge(&primary, &secondary);
    assert_eq!(merged.len(), 1);
    assert_eq!(merged[0].name, "N");
    assert_eq!(merged[0].link_address, unknown_link());
}

#[test]
fn merge_first_primary_record_wins() {
    let primary = vec![rec("Net", "first"), rec("Net", "second")];
    let secondary = names(&["Net"]);
    let merged = merge(&primary, &secondary);
    assert_eq!(merged.len(), 1);
    assert_eq!(merged[0].link_address, "first");
}

#[test]
fn merge_of_empty_sources_is_empty() {
    let primary: Vec<NetworkRecord> = vec![];
    let secondary: Vec<String> = vec![];
    assert!(merge(&primary, &secondary).is_empty());
}

#[test]
fn str_lt_orders_by_code_point() {
    assert!(str_lt("abc", "abd"));
    assert!(!str_lt("abd", "abc"));
    assert!(str_lt("", "a"));
    assert!(str_lt("ab", "b"));
    assert!(str_lt("ab", "abc"));
    assert!(!str_lt("same", "same"));
    // byte-wise order of the original: capitals before lower case
    assert!(str_lt("Zeta", "alpha"));
}

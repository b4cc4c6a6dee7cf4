use netsweep::subnet::compute_subnet;
use netsweep::sweep::{SweepAction, SweepState};

/// Drive a whole sweep: `respond` says which addresses answer the
/// probe, `resolve` gives the link address handed back for them.
fn run_sweep(
    network: u32,
    prefix: u8,
    respond: &dyn Fn(u32) -> bool,
    resolve: &dyn Fn(u32) -> Option<String>,
) -> SweepState {
    let subnet = compute_subnet(network, prefix);
    let mut state = SweepState::begin(subnet);
    loop {
        match state.next_action() {
            SweepAction::Probe(addr) => state.record_probe(respond(addr)),
            SweepAction::Resolve(addr) => state.record_resolution(resolve(addr)),
            SweepAction::Done => break,
        }
    }
    assert!(state.is_finished());
    state
}

#[test]
fn silent_subnet_yields_nothing() {
    let state = run_sweep(0xC0A8_0100, 29, &|_| false, &|_| None);
    assert!(state.results.is_empty());
}

#[test]
fn only_responders_are_recorded_in_order() {
    // 192.168.1.0/28: hosts .1 through .14; only .5 and .9 answer
    let five = 0xC0A8_0105;
    let nine = 0xC0A8_0109;
    let state = run_sweep(0xC0A8_0100, 28, &|a| a == five || a == nine, &|a| {
        if a == five {
            Some("aa:bb:cc:dd:ee:ff".to_string())
        } else {
            None
        }
    });
    assert_eq!(state.results.len(), 2);
    assert_eq!(state.results[0].address, five);
    assert_eq!(state.results[1].address, nine);
    assert!(state.results[0].address < state.results[1].address);
    assert_eq!(state.results[0].link_address.as_deref(), Some("aa:bb:cc:dd:ee:ff"));
    assert_eq!(state.results[1].link_address, None);
}

#[test]
fn responders_recorded_whatever_the_resolver_says() {
    let five = 0xC0A8_0105;
    let nine = 0xC0A8_0109;
    let hit = &|a: u32| a == five || a == nine;
    let with_links = run_sweep(0xC0A8_0100, 28, hit, &|_| Some("11:22".to_string()));
    let without_links = run_sweep(0xC0A8_0100, 28, hit, &|_| None);
    for state in [&with_links, &without_links] {
        assert_eq!(state.results.len(), 2);
        assert_eq!(state.results[0].address, five);
        assert_eq!(state.results[1].address, nine);
    }
}

#[test]
fn failed_resolution_leaves_earlier_entries_alone() {
    let subnet = compute_subnet(0xC0A8_0100, 29);
    let mut state = SweepState::begin(subnet);
    // .1 answers and resolves
    match state.next_action() {
        SweepAction::Probe(addr) => {
            assert_eq!(addr, 0xC0A8_0101);
            state.record_probe(true);
        },
        _ => panic!("expected a probe"),
    }
    match state.next_action() {
        SweepAction::Resolve(addr) => {
            assert_eq!(addr, 0xC0A8_0101);
            state.record_resolution(Some("aa:aa".to_string()));
        },
        _ => panic!("expected a resolution"),
    }
    // .2 answers but resolution fails; .3 errors at probe time
    match state.next_action() {
        SweepAction::Probe(_) => state.record_probe(true),
        _ => panic!("expected a probe"),
    }
    match state.next_action() {
        SweepAction::Resolve(_) => state.record_resolution(None),
        _ => panic!("expected a resolution"),
    }
    match state.next_action() {
        SweepAction::Probe(_) => state.record_probe(false),
        _ => panic!("expected a probe"),
    }
    // the first entry still stands, untouched and first
    assert_eq!(state.results.len(), 2);
    assert_eq!(state.results[0].address, 0xC0A8_0101);
    assert_eq!(state.results[0].link_address.as_deref(), Some("aa:aa"));
    assert_eq!(state.results[1].address, 0xC0A8_0102);
    assert_eq!(state.results[1].link_address, None);
}

#[test]
fn probes_walk_hosts_ascending() {
    let subnet = compute_subnet(0x0A00_0000, 30);
    let mut state = SweepState::begin(subnet);
    let mut probed = Vec::new();
    loop {
        match state.next_action() {
            SweepAction::Probe(addr) => {
                probed.push(addr);
                state.record_probe(false);
            },
            SweepAction::Resolve(_) => panic!("nothing answered"),
            SweepAction::Done => break,
        }
    }
    assert_eq!(probed, vec![0x0A00_0001, 0x0A00_0002]);
}

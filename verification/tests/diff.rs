//! Comparing snapshots.

use portwatch::addr::{IpAddr, Ipv4Addr, Ipv6Addr};
use portwatch::diff::{diff, Change, DiffReport};
use portwatch::model::{PortEntry, Protocol, Snapshot, TcpState};

fn listen_entry(port: u16, pid: Option<u32>, name: Option<&str>) -> PortEntry {
    PortEntry {
        protocol: Protocol::Tcp,
        local_addr: IpAddr::V4(Ipv4Addr::unspecified()),
        local_port: port,
        state: Some(TcpState::Listen),
        pid,
        process_name: name.map(str::to_string),
    }
}

fn snap(entries: Vec<PortEntry>) -> Snapshot {
    Snapshot::new(0, "host".into(), entries)
}

fn udp_entry(port: u16, pid: u32, name: &str) -> PortEntry {
    let mut e = listen_entry(port, Some(pid), Some(name));
    e.protocol = Protocol::Udp;
    e.state = None;
    e
}

#[test]
fn identical_snapshots_produce_no_changes() {
    let s = snap(vec![listen_entry(22, Some(1), Some("sshd"))]);
    let report = diff(&s, &s);
    assert!(report.is_empty());
}

#[test]
fn new_port_is_added() {
    let before = snap(vec![]);
    let after = snap(vec![listen_entry(8080, Some(10), Some("web"))]);
    let report = diff(&before, &after);
    assert_eq!(report.changes.len(), 1);
    assert!(matches!(report.changes[0], Change::Added { .. }));
    assert_eq!(report.added_count(), 1);
}

#[test]
fn closed_port_is_removed() {
    let before = snap(vec![listen_entry(8080, Some(10), Some("web"))]);
    let after = snap(vec![]);
    let report = diff(&before, &after);
    assert_eq!(report.changes.len(), 1);
    assert!(matches!(report.changes[0], Change::Removed { .. }));
    assert_eq!(report.removed_count(), 1);
}

#[test]
fn same_port_different_pid_is_owner_changed() {
    let before = snap(vec![listen_entry(443, Some(100), Some("nginx"))]);
    let after = snap(vec![listen_entry(443, Some(200), Some("evil"))]);
    let report = diff(&before, &after);
    assert_eq!(report.changes.len(), 1);
    match &report.changes[0] {
        Change::OwnerChanged {
            old_pid,
            new_pid,
            old_process_name,
            new_process_name,
            ..
        } => {
            assert_eq!(*old_pid, Some(100));
            assert_eq!(*new_pid, Some(200));
            assert_eq!(old_process_name.as_deref(), Some("nginx"));
            assert_eq!(new_process_name.as_deref(), Some("evil"));
        }
        other => panic!("expected OwnerChanged, got {other:?}"),
    }
    assert_eq!(report.owner_changed_count(), 1);
}

#[test]
fn same_port_same_pid_different_state_field_is_not_reported() {
    // state is not part of identity comparison beyond is_listening();
    // only pid/process_name changes are surfaced as OwnerChanged.
    let before = snap(vec![listen_entry(80, Some(1), Some("nginx"))]);
    let after = snap(vec![listen_entry(80, Some(1), Some("nginx"))]);
    let report = diff(&before, &after);
    assert!(report.is_empty());
}

#[test]
fn non_listening_tcp_states_are_ignored_entirely() {
    let mut established = listen_entry(9999, Some(1), Some("client"));
    established.state = Some(TcpState::Established);
    let before = snap(vec![]);
    let after = snap(vec![established]);
    let report = diff(&before, &after);
    assert!(report.is_empty(), "ESTABLISHED sockets are not services");
}

#[test]
fn udp_entries_with_no_state_are_treated_as_listening() {
    let mut udp = listen_entry(53, Some(1), Some("dnsmasq"));
    udp.protocol = Protocol::Udp;
    udp.state = None;
    let before = snap(vec![]);
    let after = snap(vec![udp]);
    let report = diff(&before, &after);
    assert_eq!(report.added_count(), 1);
}

#[test]
fn changes_are_returned_in_stable_sorted_order() {
    let before = snap(vec![listen_entry(9000, Some(1), Some("a"))]);
    let after = snap(vec![
        listen_entry(80, Some(2), Some("b")),
        listen_entry(22, Some(3), Some("c")),
    ]);
    let report = diff(&before, &after);
    let ports: Vec<u16> = report.changes.iter().map(|c| c.key().2).collect();
    let mut sorted = ports.clone();
    sorted.sort_unstable();
    assert_eq!(ports, sorted);
}

#[test]
fn pid_becoming_unknown_is_owner_changed() {
    let before = snap(vec![listen_entry(80, Some(1), Some("nginx"))]);
    let after = snap(vec![listen_entry(80, None, None)]);
    let report = diff(&before, &after);
    assert_eq!(report.owner_changed_count(), 1);
}

#[test]
fn stable_shared_port_produces_no_changes_regardless_of_scan_order() {
    // Two co-owners present in both snapshots, but enumerated in a
    // different order the second time - exactly what varying OS
    // table-walk order looks like between two live scans.
    let before = snap(vec![
        udp_entry(5353, 100, "steamwebhelper.exe"),
        udp_entry(5353, 200, "brave.exe"),
    ]);
    let after = snap(vec![
        udp_entry(5353, 200, "brave.exe"),
        udp_entry(5353, 100, "steamwebhelper.exe"),
    ]);
    let report = diff(&before, &after);
    assert!(
        report.is_empty(),
        "reordering the same owner set must not be reported as a change: {report:?}"
    );
}

#[test]
fn a_new_co_owner_joining_a_shared_port_is_added_not_owner_changed() {
    let before = snap(vec![udp_entry(5353, 100, "steamwebhelper.exe")]);
    let after = snap(vec![
        udp_entry(5353, 100, "steamwebhelper.exe"),
        udp_entry(5353, 200, "brave.exe"),
    ]);
    let report = diff(&before, &after);
    assert_eq!(report.changes.len(), 1);
    assert_eq!(report.added_count(), 1);
    assert_eq!(report.owner_changed_count(), 0);
}

#[test]
fn a_co_owner_leaving_a_shared_port_is_removed_not_owner_changed() {
    let before = snap(vec![
        udp_entry(5353, 100, "steamwebhelper.exe"),
        udp_entry(5353, 200, "brave.exe"),
    ]);
    let after = snap(vec![udp_entry(5353, 100, "steamwebhelper.exe")]);
    let report = diff(&before, &after);
    assert_eq!(report.changes.len(), 1);
    assert_eq!(report.removed_count(), 1);
    assert_eq!(report.owner_changed_count(), 0);
}

#[test]
fn single_owner_handoff_on_a_port_that_was_never_shared_is_still_owner_changed() {
    let before = snap(vec![udp_entry(5353, 100, "steamwebhelper.exe")]);
    let after = snap(vec![udp_entry(5353, 200, "brave.exe")]);
    let report = diff(&before, &after);
    assert_eq!(report.changes.len(), 1);
    assert_eq!(report.owner_changed_count(), 1);
}

#[test]
fn two_owners_replaced_by_two_others_are_removed_and_added() {
    let before = snap(vec![udp_entry(5353, 1, "a"), udp_entry(5353, 2, "b")]);
    let after = snap(vec![udp_entry(5353, 3, "c"), udp_entry(5353, 4, "d")]);
    let report = diff(&before, &after);
    assert_eq!(report.removed_count(), 2);
    assert_eq!(report.added_count(), 2);
    assert_eq!(report.owner_changed_count(), 0);
    // What is gone comes first at one socket, in the order of the scan.
    assert_eq!(
        report.changes,
        vec![
            Change::Removed {
                entry: udp_entry(5353, 1, "a")
            },
            Change::Removed {
                entry: udp_entry(5353, 2, "b")
            },
            Change::Added {
                entry: udp_entry(5353, 3, "c")
            },
            Change::Added {
                entry: udp_entry(5353, 4, "d")
            },
        ]
    );
}

#[test]
fn an_owner_listed_twice_is_one_owner() {
    let before = snap(vec![udp_entry(5353, 1, "a")]);
    let after = snap(vec![udp_entry(5353, 1, "a"), udp_entry(5353, 1, "a")]);
    assert!(diff(&before, &after).is_empty());
    assert!(diff(&after, &before).is_empty());
}

#[test]
fn a_new_name_under_the_same_pid_is_a_new_owner() {
    let before = snap(vec![listen_entry(80, Some(7), Some("sh"))]);
    let after = snap(vec![listen_entry(80, Some(7), Some("nginx"))]);
    assert_eq!(diff(&before, &after).owner_changed_count(), 1);
}

#[test]
fn sockets_are_ordered_by_protocol_then_address_then_port() {
    let mut v6 = listen_entry(1, Some(1), Some("a"));
    v6.local_addr = IpAddr::V6(Ipv6Addr::new(0, 0, 0, 0, 0, 0, 0, 0));
    let mut high = listen_entry(2, Some(1), Some("a"));
    high.local_addr = IpAddr::V4(Ipv4Addr::new(127, 0, 0, 1));
    let after = snap(vec![
        udp_entry(1, 1, "a"),
        v6.clone(),
        high.clone(),
        listen_entry(3, Some(1), Some("a")),
    ]);
    let report = diff(&snap(vec![]), &after);
    let keys: Vec<(Protocol, IpAddr, u16)> = report.changes.iter().map(|c| c.key()).collect();
    assert_eq!(
        keys,
        vec![
            listen_entry(3, None, None).key(),
            high.key(),
            v6.key(),
            udp_entry(1, 1, "a").key(),
        ]
    );
}

#[test]
fn reversing_a_comparison_swaps_what_was_added_and_removed() {
    let a = snap(vec![
        listen_entry(22, Some(1), Some("sshd")),
        listen_entry(80, Some(2), Some("nginx")),
    ]);
    let b = snap(vec![
        listen_entry(80, Some(3), Some("nginx")),
        listen_entry(81, Some(4), Some("web")),
        listen_entry(82, Some(4), Some("web")),
    ]);
    let there = diff(&a, &b);
    let back = diff(&b, &a);
    assert_eq!(there.added_count(), 2);
    assert_eq!(there.removed_count(), 1);
    assert_eq!(there.owner_changed_count(), 1);
    assert_eq!(back.added_count(), 1);
    assert_eq!(back.removed_count(), 2);
    assert_eq!(back.owner_changed_count(), 1);
    assert_eq!(there.changes.len(), 4);
}

#[test]
fn the_default_report_is_empty() {
    let report = DiffReport::default();
    assert!(report.is_empty());
    assert_eq!(report.added_count(), 0);
    assert_eq!(report.removed_count(), 0);
    assert_eq!(report.owner_changed_count(), 0);
}

#[test]
fn a_restart_a_stop_and_a_start_are_one_change_each() {
    let entry = |port: u16, pid: u32, name: &str| listen_entry(port, Some(pid), Some(name));
    let baseline = Snapshot::new(
        1_735_689_600,
        "web-01".to_string(),
        vec![
            entry(22, 512, "sshd"),
            entry(80, 1200, "nginx"),
            entry(5432, 1400, "postgres"),
        ],
    );
    let current = Snapshot::new(
        1_735_776_000,
        "web-01".to_string(),
        vec![
            entry(22, 512, "sshd"),
            entry(80, 1955, "nginx"),
            entry(9090, 2001, "metrics-exporter"),
        ],
    );
    let report = diff(&baseline, &current);
    assert_eq!(
        portwatch::format::diff_report(&report),
        "~ tcp/0.0.0.0:80 owner changed: nginx (1200) -> nginx (1955)\n\
         - tcp/0.0.0.0:5432 no longer listening (was postgres (1400))\n\
         + tcp/0.0.0.0:9090 now listening (metrics-exporter (2001))"
    );
    assert_eq!(report.added_count(), 1);
    assert_eq!(report.removed_count(), 1);
    assert_eq!(report.owner_changed_count(), 1);
}

fn handoff(old: (u32, &str), new: (u32, &str)) -> Vec<Change> {
    vec![Change::OwnerChanged {
        protocol: Protocol::Udp,
        local_addr: IpAddr::V4(Ipv4Addr::unspecified()),
        local_port: 5353,
        old_pid: Some(old.0),
        old_process_name: Some(old.1.to_string()),
        new_pid: Some(new.0),
        new_process_name: Some(new.1.to_string()),
    }]
}

#[test]
fn an_owner_with_two_entries_before_hands_over_once() {
    let before = snap(vec![udp_entry(5353, 100, "a"), udp_entry(5353, 100, "a")]);
    let after = snap(vec![udp_entry(5353, 200, "b")]);
    assert_eq!(diff(&before, &after).changes, handoff((100, "a"), (200, "b")));
}

#[test]
fn an_owner_with_two_entries_after_takes_over_once() {
    let before = snap(vec![udp_entry(5353, 100, "a")]);
    let after = snap(vec![udp_entry(5353, 200, "b"), udp_entry(5353, 200, "b")]);
    assert_eq!(diff(&before, &after).changes, handoff((100, "a"), (200, "b")));
}

#[test]
fn owners_with_two_entries_on_both_sides_hand_over_once() {
    let before = snap(vec![udp_entry(5353, 100, "a"), udp_entry(5353, 100, "a")]);
    let after = snap(vec![
        udp_entry(5353, 200, "b"),
        udp_entry(5353, 200, "b"),
        udp_entry(5353, 200, "b"),
    ]);
    assert_eq!(diff(&before, &after).changes, handoff((100, "a"), (200, "b")));
}

#[test]
fn a_third_owner_makes_it_no_handoff() {
    let before = snap(vec![udp_entry(5353, 100, "a"), udp_entry(5353, 100, "a")]);
    let after = snap(vec![udp_entry(5353, 200, "b"), udp_entry(5353, 300, "c")]);
    let report = diff(&before, &after);
    assert_eq!(report.owner_changed_count(), 0);
    assert_eq!(report.removed_count(), 2);
    assert_eq!(report.added_count(), 2);
}

#[test]
fn another_scan_order_gives_the_same_changes() {
    let before = vec![
        udp_entry(5353, 1, "a"),
        udp_entry(5353, 2, "b"),
        listen_entry(80, Some(3), Some("c")),
        listen_entry(22, Some(4), Some("d")),
    ];
    let after = vec![
        udp_entry(5353, 5, "e"),
        listen_entry(80, Some(6), Some("f")),
        listen_entry(443, Some(7), Some("g")),
    ];
    let there = diff(&snap(before.clone()), &snap(after.clone()));
    let turned = diff(
        &snap(before.into_iter().rev().collect()),
        &snap(after.into_iter().rev().collect()),
    );
    let keys = |r: &DiffReport| {
        r.changes
            .iter()
            .map(|c| c.key())
            .collect::<Vec<(Protocol, IpAddr, u16)>>()
    };
    assert_eq!(keys(&there), keys(&turned));
    assert_eq!(there.changes.len(), turned.changes.len());
    assert!(there.changes.iter().all(|c| turned.changes.contains(c)));
    // Only the two owners that left the shared port come in another order.
    assert_ne!(there, turned);
}

#[test]
fn the_way_back_is_the_way_there_reversed() {
    let a = snap(vec![
        listen_entry(22, Some(1), Some("sshd")),
        listen_entry(80, Some(2), Some("nginx")),
    ]);
    let b = snap(vec![
        listen_entry(80, Some(3), Some("nginx")),
        listen_entry(81, Some(4), Some("web")),
    ]);
    let reversed: Vec<Change> = diff(&a, &b)
        .changes
        .into_iter()
        .map(|c| match c {
            Change::Added { entry } => Change::Removed { entry },
            Change::Removed { entry } => Change::Added { entry },
            Change::OwnerChanged {
                protocol,
                local_addr,
                local_port,
                old_pid,
                old_process_name,
                new_pid,
                new_process_name,
            } => Change::OwnerChanged {
                protocol,
                local_addr,
                local_port,
                old_pid: new_pid,
                old_process_name: new_process_name,
                new_pid: old_pid,
                new_process_name: old_process_name,
            },
        })
        .collect();
    assert_eq!(diff(&b, &a).changes, reversed);
}

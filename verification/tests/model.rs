//! Entries, states and snapshots.

use portwatch::addr::{IpAddr, Ipv4Addr};
use portwatch::model::{PortEntry, Protocol, Snapshot, TcpState};
use std::cmp::Ordering;

fn entry(port: u16, pid: Option<u32>) -> PortEntry {
    PortEntry {
        protocol: Protocol::Tcp,
        local_addr: IpAddr::V4(Ipv4Addr::unspecified()),
        local_port: port,
        state: Some(TcpState::Listen),
        pid,
        process_name: pid.map(|p| format!("proc{p}")),
    }
}

#[test]
fn tcp_state_roundtrips_known_codes() {
    for code in 0x01u32..=0x0C {
        let state = TcpState::from_linux_code(code);
        assert!(!matches!(state, TcpState::Unknown(_)), "code {code:#x}");
    }
    assert_eq!(TcpState::from_linux_code(0xFF), TcpState::Unknown(0xFF));
}

#[test]
fn windows_tcp_state_codes_map_to_known_states() {
    for code in 1u32..=12 {
        let state = TcpState::from_windows_code(code);
        assert!(!matches!(state, TcpState::Unknown(_)), "code {code}");
    }
    assert_eq!(TcpState::from_windows_code(2), TcpState::Listen);
    assert_eq!(TcpState::from_windows_code(5), TcpState::Established);
    assert_eq!(TcpState::from_windows_code(999), TcpState::Unknown(999));
}

#[test]
fn listen_state_is_listening_others_are_not() {
    assert!(TcpState::Listen.is_listening());
    assert!(!TcpState::Established.is_listening());
    assert!(!TcpState::TimeWait.is_listening());
}

#[test]
fn udp_entries_are_always_listening() {
    let mut e = entry(53, Some(1));
    e.protocol = Protocol::Udp;
    e.state = None;
    assert!(e.is_listening());
}

#[test]
fn tcp_entry_listening_depends_on_state() {
    let mut e = entry(80, Some(1));
    assert!(e.is_listening());
    e.state = Some(TcpState::Established);
    assert!(!e.is_listening());
}

#[test]
fn key_ignores_pid_and_process_name() {
    let a = entry(22, Some(1));
    let b = entry(22, Some(2));
    assert_eq!(a.key(), b.key());
    assert_ne!(a, b);
}

#[test]
fn snapshot_new_sorts_entries_by_key() {
    let snap = Snapshot::new(
        0,
        "host".into(),
        vec![entry(443, Some(1)), entry(22, Some(2)), entry(80, Some(3))],
    );
    let ports: Vec<u16> = snap.entries.iter().map(|e| e.local_port).collect();
    assert_eq!(ports, vec![22, 80, 443]);
}

#[test]
fn tcp_state_display_matches_conventional_names() {
    assert_eq!(TcpState::Listen.to_string(), "LISTEN");
    assert_eq!(TcpState::CloseWait.to_string(), "CLOSE_WAIT");
    assert_eq!(TcpState::Unknown(99).to_string(), "UNKNOWN(99)");
}

#[test]
fn protocol_display() {
    assert_eq!(Protocol::Tcp.to_string(), "tcp");
    assert_eq!(Protocol::Udp.to_string(), "udp");
}

#[test]
fn every_state_has_its_name() {
    let names: Vec<String> = (1u32..=12)
        .map(|c| TcpState::from_linux_code(c).to_string())
        .collect();
    assert_eq!(
        names,
        vec![
            "ESTABLISHED",
            "SYN_SENT",
            "SYN_RECV",
            "FIN_WAIT1",
            "FIN_WAIT2",
            "TIME_WAIT",
            "CLOSE",
            "CLOSE_WAIT",
            "LAST_ACK",
            "LISTEN",
            "CLOSING",
            "NEW_SYN_RECV",
        ]
    );
}

#[test]
fn windows_codes_are_numbered_differently() {
    let names: Vec<String> = (1u32..=12)
        .map(|c| TcpState::from_windows_code(c).to_string())
        .collect();
    assert_eq!(
        names,
        vec![
            "CLOSE",
            "LISTEN",
            "SYN_SENT",
            "SYN_RECV",
            "ESTABLISHED",
            "FIN_WAIT1",
            "FIN_WAIT2",
            "CLOSE_WAIT",
            "CLOSING",
            "LAST_ACK",
            "TIME_WAIT",
            "CLOSE",
        ]
    );
}

#[test]
fn entries_of_one_socket_keep_their_order() {
    let snap = Snapshot::new(
        7,
        "host".into(),
        vec![
            entry(80, Some(9)),
            entry(22, Some(5)),
            entry(80, Some(1)),
            entry(80, Some(4)),
        ],
    );
    let pids: Vec<Option<u32>> = snap.entries.iter().map(|e| e.pid).collect();
    assert_eq!(pids, vec![Some(5), Some(9), Some(1), Some(4)]);
    assert_eq!(snap.captured_at_unix, 7);
    assert_eq!(snap.hostname, "host");
}

#[test]
fn sorting_a_snapshot_again_changes_nothing() {
    let entries: Vec<PortEntry> = [9, 3, 7, 3, 1, 8, 2].iter().map(|p| entry(*p, Some(1))).collect();
    let once = Snapshot::new(0, "h".into(), entries);
    let twice = Snapshot::new(0, "h".into(), once.entries.clone());
    assert_eq!(once, twice);
    assert_eq!(once.entries.len(), 7);
}

#[test]
fn entries_compare_by_key() {
    let a = entry(22, Some(2));
    let b = entry(80, Some(1));
    assert_eq!(a.cmp(&b), Ordering::Less);
    assert_eq!(b.cmp(&a), Ordering::Greater);
    assert_eq!(a.cmp(&entry(22, None)), Ordering::Equal);
    assert!(a < b);
    assert_eq!(a.partial_cmp(&b), Some(Ordering::Less));
}

#[test]
fn codes_that_name_no_state_are_kept() {
    for code in [0, 13, 255, u32::MAX] {
        assert_eq!(TcpState::from_linux_code(code), TcpState::Unknown(code));
        assert_eq!(TcpState::from_windows_code(code), TcpState::Unknown(code));
    }
}

#[test]
fn keys_are_ordered_by_protocol_first() {
    let tcp = entry(60000, None);
    let mut udp = entry(1, None);
    udp.protocol = Protocol::Udp;
    assert!(portwatch::model::is_key_before(&tcp.key(), &udp.key()));
    assert!(!portwatch::model::is_key_before(&udp.key(), &tcp.key()));
    assert!(!portwatch::model::is_key_before(&tcp.key(), &tcp.key()));
}

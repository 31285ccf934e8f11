//! Capturing snapshots from a source.

use portwatch::addr::{IpAddr, Ipv4Addr};
use portwatch::model::{PortEntry, Protocol, TcpState};
use portwatch::source::PortSource;
use portwatch::{capture, captured, hostname, now_unix, seconds_or_zero};

struct Fixed;

impl PortSource for Fixed {
    fn scan(&self) -> std::io::Result<Vec<PortEntry>> {
        Ok(vec![entry(80), entry(22)])
    }
}

struct Broken;

impl PortSource for Broken {
    fn scan(&self) -> std::io::Result<Vec<PortEntry>> {
        Err(std::io::Error::new(std::io::ErrorKind::PermissionDenied, "no"))
    }
}

fn entry(port: u16) -> PortEntry {
    PortEntry {
        protocol: Protocol::Tcp,
        local_addr: IpAddr::V4(Ipv4Addr::unspecified()),
        local_port: port,
        state: Some(TcpState::Listen),
        pid: Some(1),
        process_name: None,
    }
}

#[test]
fn a_capture_holds_what_the_source_found() {
    let before = now_unix();
    let snap = capture(&Fixed, "host".to_string()).unwrap();
    assert_eq!(snap.hostname, "host");
    assert_eq!(snap.entries, vec![entry(22), entry(80)]);
    assert!(before <= snap.captured_at_unix);
}

#[test]
fn a_failing_source_fails_the_capture() {
    let error = capture(&Broken, "host".to_string()).unwrap_err();
    assert_eq!(error.kind(), std::io::ErrorKind::PermissionDenied);
    assert_eq!(error.to_string(), "no");
}

#[test]
fn a_captured_scan_is_sorted_and_stamped() {
    let snap = captured(Ok(vec![entry(9), entry(3)]), 1234, "h".to_string()).unwrap();
    assert_eq!(snap.captured_at_unix, 1234);
    assert_eq!(snap.hostname, "h");
    assert_eq!(snap.entries, vec![entry(3), entry(9)]);
}

#[test]
fn the_clock_runs_after_the_epoch() {
    // 2020-01-01T00:00:00Z
    assert!(now_unix() > 1_577_836_800);
    assert_eq!(seconds_or_zero(Some(7)), 7);
    assert_eq!(seconds_or_zero(None), 0);
}

#[test]
fn the_first_name_that_is_set_is_the_hostname() {
    let name = |s: &str| Some(s.to_string());
    assert_eq!(hostname(name("a"), name("b")), "a");
    assert_eq!(hostname(None, name("b")), "b");
    assert_eq!(hostname(None, None), "unknown");
    assert_eq!(hostname(name(""), name("b")), "");
}

//! The macOS port source.

use portwatch::addr::{IpAddr, Ipv4Addr, Ipv6Addr};
use portwatch::macos::{
    lsof_entries, lsof_failed, parse_endpoint, parse_line, parse_lsof_output, parse_tcp_state_word,
};
use portwatch::model::{Protocol, TcpState};

const FIXTURE_TCP: &str = "\
COMMAND               PID  USER   FD   TYPE             DEVICE SIZE/OFF NODE NAME
launchd                 1  root    9u  IPv4 0x1a2b3c4d5e6f0001      0t0  TCP *:22 (LISTEN)
launchd                 1  root   10u  IPv6 0x1a2b3c4d5e6f0002      0t0  TCP *:22 (LISTEN)
cupsd                 177  root    5u  IPv6 0x1a2b3c4d5e6f0003      0t0  TCP [::1]:631 (LISTEN)
cupsd                 177  root    6u  IPv4 0x1a2b3c4d5e6f0004      0t0  TCP 127.0.0.1:631 (LISTEN)
rapportd              500 alice    4u  IPv4 0x1a2b3c4d5e6f0005      0t0  TCP *:49152 (LISTEN)
Google Chrome Helper  812 alice   22u  IPv4 0x1a2b3c4d5e6f0006      0t0  TCP 192.168.1.20:54321->142.250.1.1:443 (ESTABLISHED)
postgres              910 alice    7u  IPv4 0x1a2b3c4d5e6f0007      0t0  TCP 127.0.0.1:5432 (LISTEN)
com.docker.backend   5001 alice   65u  IPv6 0x1a2b3c4d5e6f0008      0t0  TCP *:8080 (LISTEN)
node                 6100 alice   23u  IPv4 0x1a2b3c4d5e6f0009      0t0  TCP *:3000 (LISTEN)
";

const FIXTURE_UDP: &str = "\
COMMAND          PID           USER   FD   TYPE             DEVICE SIZE/OFF NODE NAME
mDNSResponder    201 _mdnsresponder    7u  IPv4 0x1a2b3c4d5e6f1001      0t0  UDP *:5353
mDNSResponder    201 _mdnsresponder    8u  IPv6 0x1a2b3c4d5e6f1002      0t0  UDP [::]:5353
syslogd           88           root   11u  IPv4 0x1a2b3c4d5e6f1003      0t0  UDP 127.0.0.1:514
";

fn localhost() -> IpAddr {
    IpAddr::V4(Ipv4Addr::new(127, 0, 0, 1))
}

fn localhost6() -> IpAddr {
    IpAddr::V6(Ipv6Addr::new(0, 0, 0, 0, 0, 0, 0, 1))
}

#[test]
fn parse_endpoint_wildcard() {
    assert_eq!(
        parse_endpoint("*:8080"),
        Some((IpAddr::V4(Ipv4Addr::unspecified()), 8080))
    );
}

#[test]
fn parse_endpoint_ipv4() {
    assert_eq!(parse_endpoint("127.0.0.1:5432"), Some((localhost(), 5432)));
}

#[test]
fn parse_endpoint_bracketed_ipv6() {
    assert_eq!(parse_endpoint("[::1]:631"), Some((localhost6(), 631)));
}

#[test]
fn parse_endpoint_rejects_missing_port() {
    assert_eq!(parse_endpoint("127.0.0.1"), None);
}

#[test]
fn real_lsof_tcp_fixture_parses_every_listening_row() {
    let entries = parse_lsof_output(FIXTURE_TCP, Protocol::Tcp);
    // 9 data rows in the fixture, all TCP.
    assert_eq!(entries.len(), 9);
    assert!(entries.iter().all(|e| e.protocol == Protocol::Tcp));
}

#[test]
fn command_names_with_spaces_are_parsed_whole() {
    let entries = parse_lsof_output(FIXTURE_TCP, Protocol::Tcp);
    let chrome = entries
        .iter()
        .find(|e| e.pid == Some(812))
        .expect("Google Chrome Helper row present");
    assert_eq!(chrome.process_name.as_deref(), Some("Google Chrome Helper"));

    let docker = entries
        .iter()
        .find(|e| e.pid == Some(5001))
        .expect("com.docker.backend row present");
    assert_eq!(docker.process_name.as_deref(), Some("com.docker.backend"));
}

#[test]
fn established_connection_state_is_captured() {
    let entries = parse_lsof_output(FIXTURE_TCP, Protocol::Tcp);
    let chrome = entries.iter().find(|e| e.pid == Some(812)).unwrap();
    assert_eq!(chrome.state, Some(TcpState::Established));
    assert!(!chrome.is_listening());
}

#[test]
fn ipv6_loopback_row_parses_correctly() {
    let entries = parse_lsof_output(FIXTURE_TCP, Protocol::Tcp);
    let cups_v6 = entries
        .iter()
        .find(|e| e.pid == Some(177) && e.local_addr == localhost6())
        .expect("cupsd IPv6 row present");
    assert_eq!(cups_v6.local_port, 631);
    assert_eq!(cups_v6.process_name.as_deref(), Some("cupsd"));
    assert_eq!(cups_v6.state, Some(TcpState::Listen));
}

#[test]
fn real_lsof_udp_fixture_parses_every_row() {
    let entries = parse_lsof_output(FIXTURE_UDP, Protocol::Udp);
    assert_eq!(entries.len(), 3);
    assert!(entries.iter().all(|e| e.protocol == Protocol::Udp));
    assert!(entries.iter().all(|e| e.state.is_none()));
    let mdns = entries
        .iter()
        .find(|e| e.local_port == 5353 && matches!(e.local_addr, IpAddr::V4(_)));
    assert!(mdns.is_some());
}

#[test]
fn tcp_parser_ignores_udp_rows_and_vice_versa() {
    // Feeding the TCP fixture through the UDP parser should yield
    // nothing, since every NODE token in it is "TCP".
    assert_eq!(parse_lsof_output(FIXTURE_TCP, Protocol::Udp).len(), 0);
    assert_eq!(parse_lsof_output(FIXTURE_UDP, Protocol::Tcp).len(), 0);
}

#[test]
fn short_line_is_ignored_without_panicking() {
    assert_eq!(parse_line("too short", Protocol::Tcp), None);
}

#[test]
fn line_with_unparseable_pid_is_ignored() {
    let line = "launchd notapid root 6u IPv4 0x1 0t0 TCP *:22 (LISTEN)";
    assert_eq!(parse_line(line, Protocol::Tcp), None);
}

#[test]
fn a_scan_lists_tcp_rows_then_udp_rows() {
    let entries = lsof_entries(FIXTURE_TCP, FIXTURE_UDP);
    assert_eq!(entries.len(), 12);
    assert!(entries[..9].iter().all(|e| e.protocol == Protocol::Tcp));
    assert!(entries[9..].iter().all(|e| e.protocol == Protocol::Udp));
    assert_eq!(lsof_entries("", "").len(), 0);
}

#[test]
fn a_line_needs_a_command_in_front_of_its_columns() {
    let line = "1 root 6u IPv4 0x1 0t0 TCP *:22";
    assert_eq!(parse_line(line, Protocol::Tcp), None);
    let line = "1 root 6u IPv4 0x1 0t0 TCP *:22 (LISTEN)";
    assert_eq!(parse_line(line, Protocol::Tcp), None);
    let line = "x 1 root 6u IPv4 0x1 0t0 TCP *:22";
    let e = parse_line(line, Protocol::Tcp).unwrap();
    assert_eq!(e.process_name.as_deref(), Some("x"));
    assert_eq!(e.state, Some(TcpState::Unknown(0)));
}

#[test]
fn a_row_of_neither_protocol_is_ignored() {
    let line = "x 1 root 6u IPv4 0x1 0t0 ICMP *:22 (LISTEN)";
    assert_eq!(parse_line(line, Protocol::Tcp), None);
    assert_eq!(parse_line(line, Protocol::Udp), None);
}

#[test]
fn a_row_with_an_unparseable_endpoint_is_ignored() {
    let line = "x 1 root 6u IPv4 0x1 0t0 TCP *:http (LISTEN)";
    assert_eq!(parse_line(line, Protocol::Tcp), None);
}

#[test]
fn the_local_end_of_a_connection_counts() {
    let line = "x 1 root 6u IPv4 0x1 0t0 UDP 10.0.0.1:68->10.0.0.2:67";
    let e = parse_line(line, Protocol::Udp).unwrap();
    assert_eq!(e.local_addr.to_string(), "10.0.0.1");
    assert_eq!(e.local_port, 68);
    assert_eq!(e.state, None);
    assert_eq!(e.pid, Some(1));
}

#[test]
fn every_state_word_is_known() {
    let known = [
        ("LISTEN", TcpState::Listen),
        ("ESTABLISHED", TcpState::Established),
        ("SYN_SENT", TcpState::SynSent),
        ("SYN_RECEIVED", TcpState::SynRecv),
        ("FIN_WAIT_1", TcpState::FinWait1),
        ("FIN_WAIT_2", TcpState::FinWait2),
        ("TIME_WAIT", TcpState::TimeWait),
        ("CLOSED", TcpState::Close),
        ("CLOSE_WAIT", TcpState::CloseWait),
        ("LAST_ACK", TcpState::LastAck),
        ("CLOSING", TcpState::Closing),
        ("listen", TcpState::Unknown(0)),
        ("", TcpState::Unknown(0)),
    ];
    for (word, state) in known {
        assert_eq!(parse_tcp_state_word(word), state, "{word}");
    }
}

#[test]
fn endpoints_that_are_none_are_rejected() {
    assert_eq!(parse_endpoint("127.0.0.1:65536"), None);
    assert_eq!(parse_endpoint("127.0.0.1:"), None);
    assert_eq!(parse_endpoint("localhost:80"), None);
    assert_eq!(parse_endpoint("[::1:80"), None);
    assert_eq!(parse_endpoint("[]:80"), None);
    assert_eq!(parse_endpoint(":80"), None);
    assert_eq!(parse_endpoint("::1:631"), Some((IpAddr::V6(Ipv6Addr::new(0, 0, 0, 0, 0, 0, 0, 1)), 631)));
}

#[test]
fn exit_code_one_is_an_empty_list() {
    assert!(!lsof_failed(true, Some(0)));
    assert!(!lsof_failed(false, Some(1)));
    assert!(lsof_failed(false, Some(2)));
    assert!(lsof_failed(false, None));
}

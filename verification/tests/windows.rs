//! The Windows port source.

use portwatch::addr::{IpAddr, Ipv4Addr, Ipv6Addr};
use portwatch::model::{PortEntry, Protocol, TcpState};
use portwatch::windows::{
    attach_names, convert_ipv4, convert_port, process_names, scan_tcp4, scan_tcp6, scan_udp4,
    scan_udp6, table_entries, wide_to_string, FetchStep, Process, TableBuf, TableFetch,
};
use std::collections::HashMap;

#[test]
fn convert_port_reads_network_byte_order() {
    // 0x5000 packed the way the API stores port 80 in the low 16
    // bits of the DWORD, big-endian within those two bytes.
    assert_eq!(convert_port(0x5000), 80);
    assert_eq!(convert_port(0x901F), 8080);
}

#[test]
fn convert_ipv4_reads_loopback() {
    assert_eq!(convert_ipv4(0x0100_007F), Ipv4Addr::new(127, 0, 0, 1));
}

#[test]
fn convert_ipv4_reads_unspecified() {
    assert_eq!(convert_ipv4(0), Ipv4Addr::unspecified());
}

#[test]
fn wide_to_string_stops_at_nul() {
    let wide: Vec<u16> = "svchost.exe\0garbage".encode_utf16().collect();
    assert_eq!(wide_to_string(&wide), "svchost.exe");
}

#[test]
fn wide_to_string_handles_no_nul() {
    let wide: Vec<u16> = "abc".encode_utf16().collect();
    assert_eq!(wide_to_string(&wide), "abc");
}

#[test]
fn only_the_low_bits_of_a_port_count() {
    assert_eq!(convert_port(0xdead_5000), 80);
    assert_eq!(convert_port(0xffff), 0xffff);
}

#[test]
fn wide_strings_of_any_characters_are_read() {
    for s in ["", "nginx", "größe.exe", "日本語", "\u{ffff}\u{e000}\u{d7ff}", "😀a😀\u{10ffff}"] {
        let wide: Vec<u16> = s.encode_utf16().collect();
        assert_eq!(wide_to_string(&wide), s);
    }
}

#[test]
fn lost_halves_of_pairs_are_replaced() {
    let wide = [0xD834, 0xDD1E, 0x006d, 0x0075, 0x0073, 0xDD1E, 0x0069, 0x0063, 0xD834];
    assert_eq!(wide_to_string(&wide), "𝄞mus\u{FFFD}ic\u{FFFD}");
    assert_eq!(wide_to_string(&wide), String::from_utf16_lossy(&wide));
    let wide = [0xD834, 0xD834, 0xDD1E];
    assert_eq!(wide_to_string(&wide), String::from_utf16_lossy(&wide));
}

fn table(words: Vec<u32>) -> TableBuf {
    let byte_len = words.len() * 4;
    TableBuf { words, byte_len }
}

#[test]
fn tcp_rows_are_read() {
    let buf = table(vec![
        2, //
        2, 0x0100_007F, 0x5000, 0, 0, 1234, //
        5, 0x1400_A8C0, 0x901F, 0x0101_0101, 0xBB01, 99,
    ]);
    assert_eq!(
        scan_tcp4(&buf),
        vec![
            PortEntry {
                protocol: Protocol::Tcp,
                local_addr: IpAddr::V4(Ipv4Addr::new(127, 0, 0, 1)),
                local_port: 80,
                state: Some(TcpState::Listen),
                pid: Some(1234),
                process_name: None,
            },
            PortEntry {
                protocol: Protocol::Tcp,
                local_addr: IpAddr::V4(Ipv4Addr::new(192, 168, 0, 20)),
                local_port: 8080,
                state: Some(TcpState::Established),
                pid: Some(99),
                process_name: None,
            },
        ]
    );
}

#[test]
fn tcp_rows_over_ipv6_are_read() {
    let buf = table(vec![
        1, //
        0x0000_80FE, 0, 0, 0x0100_0000, 7, 0x5000, //
        0, 0, 0, 0, 0, 0, //
        2, 77,
    ]);
    assert_eq!(
        scan_tcp6(&buf),
        vec![PortEntry {
            protocol: Protocol::Tcp,
            local_addr: IpAddr::V6(Ipv6Addr::new(0xfe80, 0, 0, 0, 0, 0, 0, 1)),
            local_port: 80,
            state: Some(TcpState::Listen),
            pid: Some(77),
            process_name: None,
        }]
    );
}

#[test]
fn udp_rows_are_read() {
    let buf = table(vec![1, 0, 0xE914, 4]);
    assert_eq!(
        scan_udp4(&buf),
        vec![PortEntry {
            protocol: Protocol::Udp,
            local_addr: IpAddr::V4(Ipv4Addr::unspecified()),
            local_port: 5353,
            state: None,
            pid: Some(4),
            process_name: None,
        }]
    );
    let buf = table(vec![1, 0, 0, 0xFFFF_0000, 0x0100_007F, 0, 0xE914, 5]);
    let entries = scan_udp6(&buf);
    assert_eq!(entries.len(), 1);
    assert_eq!(entries[0].local_addr.to_string(), "::ffff:127.0.0.1");
    assert_eq!(entries[0].local_port, 5353);
    assert_eq!(entries[0].pid, Some(5));
    assert_eq!(entries[0].state, None);
}

#[test]
fn an_empty_table_has_no_rows() {
    let buf = TableBuf {
        words: vec![],
        byte_len: 0,
    };
    assert!(buf.is_empty());
    assert_eq!(scan_tcp4(&buf), vec![]);
    assert_eq!(scan_udp6(&table(vec![0])), vec![]);
    let unfilled = TableBuf {
        words: vec![1, 0, 0, 4],
        byte_len: 0,
    };
    assert_eq!(scan_udp4(&unfilled), vec![]);
}

#[test]
fn rows_that_the_buffer_does_not_hold_are_left_out() {
    let entries = scan_udp4(&table(vec![9, 0, 0x5000, 1, 0, 0x5000, 2, 0, 0x5000]));
    let pids: Vec<Option<u32>> = entries.iter().map(|e| e.pid).collect();
    assert_eq!(pids, vec![Some(1), Some(2)]);
}

#[test]
fn a_table_is_asked_for_its_size_first() {
    let first = TableFetch::new();
    assert_eq!(first.words, Vec::<u32>::new());
    assert_eq!(first.size, 0);
    let second = match first.answered(122, 10) {
        FetchStep::Again(f) => f,
        other => panic!("{other:?}"),
    };
    assert_eq!(second.words, vec![0, 0, 0]);
    assert_eq!(second.size, 10);
    let filled = TableFetch {
        words: vec![1, 2, 3],
        ..second
    };
    assert_eq!(
        filled.answered(0, 8),
        FetchStep::Done(TableBuf {
            words: vec![1, 2, 3],
            byte_len: 8
        })
    );
}

#[test]
fn a_failing_call_ends_the_fetch() {
    assert_eq!(TableFetch::new().answered(5, 0), FetchStep::Failed(5));
}

#[test]
fn a_table_is_asked_for_eight_times_at_most() {
    let mut fetch = TableFetch::new();
    let mut calls = 0;
    loop {
        calls += 1;
        match fetch.answered(122, 4 * calls) {
            FetchStep::Again(next) => fetch = next,
            FetchStep::GaveUp => break,
            other => panic!("{other:?}"),
        }
    }
    assert_eq!(calls, 8);
}

fn process(pid: u32, name: &str) -> Process {
    Process {
        pid,
        exe_file: name.encode_utf16().chain([0, 0x41]).collect(),
    }
}

#[test]
fn processes_are_named_by_their_executables() {
    let names = process_names(&vec![
        process(4, "System"),
        process(0, ""),
        process(99, "old.exe"),
        process(99, "new.exe"),
    ]);
    assert_eq!(names.len(), 2);
    assert_eq!(names.get(&4).map(String::as_str), Some("System"));
    assert_eq!(names.get(&99).map(String::as_str), Some("new.exe"));
}

#[test]
fn entries_get_the_names_of_their_owners() {
    let names = process_names(&vec![process(4, "System"), process(5, "svchost.exe")]);
    let empty = table(vec![0]);
    let entries = table_entries(
        &table(vec![1, 2, 0, 0x5000, 0, 0, 5]),
        &empty,
        &table(vec![2, 0, 0xE914, 4, 0, 0xE914, 6]),
        &empty,
        &names,
    );
    let shown: Vec<(Protocol, Option<u32>, Option<&str>)> = entries
        .iter()
        .map(|e| (e.protocol, e.pid, e.process_name.as_deref()))
        .collect();
    assert_eq!(
        shown,
        vec![
            (Protocol::Tcp, Some(5), Some("svchost.exe")),
            (Protocol::Udp, Some(4), Some("System")),
            (Protocol::Udp, Some(6), None),
        ]
    );
}

#[test]
fn an_entry_without_an_owner_keeps_its_name() {
    let e = PortEntry {
        protocol: Protocol::Udp,
        local_addr: IpAddr::V4(Ipv4Addr::unspecified()),
        local_port: 1,
        state: None,
        pid: None,
        process_name: Some("x".to_string()),
    };
    assert_eq!(attach_names(vec![e.clone()], &HashMap::new()), vec![e]);
}

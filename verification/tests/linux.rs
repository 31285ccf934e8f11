//! The Linux port source.

use portwatch::addr::{IpAddr, Ipv4Addr, Ipv6Addr};
use portwatch::linux::{
    owning_pids, parse_addr_port, parse_ipv4_hex, parse_ipv6_hex, parse_pid, parse_proc_net,
    parse_socket_inode, process_name, read_tables, resolve, socket_owners, FdEntry, ProcDir, Table,
    Tables,
};
use portwatch::model::{PortEntry, Protocol, TcpState};
use std::collections::HashMap;

const TCP_HEADER: &str = "  sl  local_address rem_address   st tx_queue rx_queue tr tm->when retrnsmt   uid  timeout inode";

fn localhost() -> Ipv4Addr {
    Ipv4Addr::new(127, 0, 0, 1)
}

fn localhost6() -> Ipv6Addr {
    Ipv6Addr::new(0, 0, 0, 0, 0, 0, 0, 1)
}

#[test]
fn parses_ipv4_loopback() {
    assert_eq!(parse_ipv4_hex("0100007F"), Some(localhost()));
}

#[test]
fn parses_ipv4_any() {
    assert_eq!(parse_ipv4_hex("00000000"), Some(Ipv4Addr::unspecified()));
}

#[test]
fn rejects_wrong_length_ipv4_hex() {
    assert_eq!(parse_ipv4_hex("ABCD"), None);
}

#[test]
fn parses_ipv6_unspecified() {
    assert_eq!(
        parse_ipv6_hex("0000000000000000000000000000000000"),
        None,
        "34 hex chars is the wrong length and must be rejected"
    );
    let all_zero_32 = "0".repeat(32);
    assert_eq!(
        parse_ipv6_hex(&all_zero_32),
        Some(Ipv6Addr::new(0, 0, 0, 0, 0, 0, 0, 0))
    );
}

#[test]
fn parses_ipv6_loopback() {
    // ::1 as four 8-hex-char words, each the byte-reversed form of
    // the word's 4 real address bytes: word0=00000000 word1=00000000
    // word2=00000000 word3=01000000 (the address's real last byte,
    // 0x01, is written first within its own little-endian word).
    let hex = ["00000000", "00000000", "00000000", "01000000"].concat();
    assert_eq!(hex.len(), 32);
    assert_eq!(parse_ipv6_hex(&hex), Some(localhost6()));
}

#[test]
fn parses_addr_port_field() {
    let (addr, port) = parse_addr_port("0100007F:1F90", false).unwrap();
    assert_eq!(addr, IpAddr::V4(localhost()));
    assert_eq!(port, 8080);
}

#[test]
fn parse_addr_port_rejects_missing_colon() {
    assert!(parse_addr_port("0100007F", false).is_none());
}

#[test]
fn parses_single_listening_tcp_row() {
    let content = format!(
        "{TCP_HEADER}\n   0: 00000000:1F90 00000000:0000 0A 00000000:00000000 00:00000000 00000000     0        0 12345 1 0000000000000000 100 0 0 10 0"
    );
    let rows = parse_proc_net(&content, false);
    assert_eq!(rows.len(), 1);
    let r = &rows[0];
    assert_eq!(r.local_addr, IpAddr::V4(Ipv4Addr::unspecified()));
    assert_eq!(r.local_port, 8080);
    assert_eq!(r.state, 0x0A);
    assert_eq!(r.inode, 12345);
}

#[test]
fn skips_header_and_blank_lines() {
    let content = format!("{TCP_HEADER}\n\n");
    assert_eq!(parse_proc_net(&content, false).len(), 0);
}

#[test]
fn skips_malformed_rows_without_panicking() {
    let content = format!("{TCP_HEADER}\n   0: not-a-valid-row\n");
    assert_eq!(parse_proc_net(&content, false).len(), 0);
}

#[test]
fn parses_multiple_rows_with_mixed_states() {
    let content = format!(
        "{TCP_HEADER}\n\
         0: 0100007F:0016 00000000:0000 0A 00000000:00000000 00:00000000 00000000     0        0 111 1 0 100 0 0 10 0\n\
         1: 0100007F:0050 0100007F:8000 01 00000000:00000000 00:00000000 00000000     0        0 222 1 0 100 0 0 10 0\n"
    );
    let rows = parse_proc_net(&content, false);
    assert_eq!(rows.len(), 2);
    assert_eq!(rows[0].local_port, 22);
    assert_eq!(rows[0].state, 0x0A);
    assert_eq!(rows[1].local_port, 80);
    assert_eq!(rows[1].state, 0x01);
}

#[test]
fn parse_socket_inode_extracts_number() {
    assert_eq!(parse_socket_inode("socket:[98765]"), Some(98765));
    assert_eq!(parse_socket_inode("/dev/null"), None);
    assert_eq!(parse_socket_inode("socket:[abc]"), None);
}

fn row(sl: usize, local: &str, state: &str, inode: u64) -> String {
    format!(
        "   {sl}: {local} 00000000:0000 {state} 00000000:00000000 00:00000000 00000000     0        0 {inode} 2 0000000000000000 100 0 0 10 0\n"
    )
}

fn dir(name: &str, fds: Option<Vec<FdEntry>>) -> ProcDir {
    ProcDir {
        name: name.to_string(),
        fds,
    }
}

/// What a scan reads from a machine on which `systemd-resolve` (812) and
/// `postgres` (1103) can be looked into, and `sshd` cannot.
fn scanned() -> Vec<PortEntry> {
    let tcp = format!(
        "{TCP_HEADER}\n{}{}{}{}{}",
        row(0, "3500007F:0035", "0A", 25142),
        row(1, "00000000:0016", "0A", 22765),
        row(2, "0100007F:1538", "0A", 31980),
        row(3, "0100007F:0277", "0A", 28811),
        row(4, "0F02000A:C1B2", "01", 40021),
    );
    let tcp6 = format!(
        "{TCP_HEADER}\n{}{}",
        row(0, "00000000000000000000000000000000:0016", "0A", 22767),
        row(1, "0000000000000000FFFF00000100007F:187C", "0A", 33001),
    );
    let udp = format!(
        "{TCP_HEADER}\n{}{}{}",
        row(0, "3500007F:0035", "07", 25143),
        row(1, "00000000:0044", "07", 20011),
        row(2, "00000000:14E9", "07", 20012),
    );
    let udp6 = format!(
        "{TCP_HEADER}\n{}",
        row(0, "00000000000000000000000000000000:14E9", "07", 20013),
    );
    let dirs = vec![
        dir("net", None),
        dir("self", Some(vec![FdEntry::Link("socket:[22765]".to_string())])),
        dir("1", None),
        dir(
            "812",
            Some(vec![
                FdEntry::Link("/dev/null".to_string()),
                FdEntry::File("socket:[25142]\n".to_string()),
                FdEntry::File("socket:[25143]\n".to_string()),
            ]),
        ),
        dir(
            "1103",
            Some(vec![
                FdEntry::Unreadable,
                FdEntry::Link("socket:[31980]".to_string()),
            ]),
        ),
    ];
    let owners = socket_owners(&dirs);
    let tables: Tables<()> = Tables {
        tcp: Ok(tcp),
        tcp6: Ok(tcp6),
        udp: Ok(udp),
        udp6: Ok(udp6),
    };
    let sockets = read_tables(tables).expect("fixture scan should succeed");
    assert_eq!(owning_pids(&sockets, &owners), vec![812, 1103]);
    let mut names: HashMap<u32, String> = HashMap::new();
    names.insert(812, process_name("systemd-resolve\n"));
    names.insert(1103, process_name("postgres\n"));
    resolve(&sockets, &owners, &names)
}

#[test]
fn full_scan_over_fixture_proc_tree_resolves_known_sockets() {
    let entries = scanned();

    // 11 rows total across tcp(5) + tcp6(2) + udp(3) + udp6(1).
    assert_eq!(entries.len(), 11);

    let find = |proto: Protocol, addr: &str, port: u16| {
        entries
            .iter()
            .find(|e| {
                e.protocol == proto && e.local_addr.to_string() == addr && e.local_port == port
            })
            .unwrap_or_else(|| panic!("missing {proto:?}/{addr}:{port}"))
    };

    // systemd-resolved's stub resolver: TCP and UDP 127.0.0.53:53,
    // both attributed to pid 812 via inode 25142 / 25143.
    let tcp_resolved = find(Protocol::Tcp, "127.0.0.53", 53);
    assert_eq!(tcp_resolved.pid, Some(812));
    assert_eq!(
        tcp_resolved.process_name.as_deref(),
        Some("systemd-resolve")
    );
    assert_eq!(tcp_resolved.state, Some(TcpState::Listen));

    let udp_resolved = find(Protocol::Udp, "127.0.0.53", 53);
    assert_eq!(udp_resolved.pid, Some(812));
    assert_eq!(
        udp_resolved.process_name.as_deref(),
        Some("systemd-resolve")
    );

    // postgres on the loopback-only default port, via inode 31980 in
    // pid 1103's fd table.
    let pg = find(Protocol::Tcp, "127.0.0.1", 5432);
    assert_eq!(pg.pid, Some(1103));
    assert_eq!(pg.process_name.as_deref(), Some("postgres"));

    // sshd's socket (inode 22765) has no owning fd in the fixture,
    // which is what an unprivileged scan looks like for a process
    // whose fds you can't read.
    let sshd = find(Protocol::Tcp, "0.0.0.0", 22);
    assert_eq!(sshd.pid, None);
    assert_eq!(sshd.process_name, None);
    assert_eq!(sshd.state, Some(TcpState::Listen));

    // An IPv4-mapped IPv6 address in the tcp6 table parses correctly.
    let mapped = find(Protocol::Tcp, "::ffff:127.0.0.1", 6268);
    assert_eq!(mapped.pid, None);

    // The one non-LISTEN row (an ESTABLISHED outbound connection)
    // is still returned by scan() - filtering to "is listening" is
    // the diff engine's job, not the source's.
    let established = entries
        .iter()
        .find(|e| e.state == Some(TcpState::Established))
        .expect("established row present");
    assert_eq!(established.local_port, 0xC1B2);
}

#[test]
fn only_tcp_sockets_have_a_state() {
    for e in scanned() {
        assert_eq!(e.state.is_some(), e.protocol == Protocol::Tcp);
    }
}

#[test]
fn an_owner_whose_name_is_not_known_keeps_its_pid() {
    let tables: Tables<()> = Tables {
        tcp: Ok(row(0, "00000000:0016", "0A", 7)),
        tcp6: Err(()),
        udp: Err(()),
        udp6: Err(()),
    };
    let sockets = read_tables(tables).unwrap();
    let owners = socket_owners(&vec![dir(
        "42",
        Some(vec![FdEntry::Link("socket:[7]".to_string())]),
    )]);
    let entries = resolve(&sockets, &owners, &HashMap::new());
    assert_eq!(entries.len(), 1);
    assert_eq!(entries[0].pid, Some(42));
    assert_eq!(entries[0].process_name, None);
}

#[test]
fn the_first_process_that_holds_a_socket_owns_it() {
    let link = || FdEntry::Link("socket:[7]".to_string());
    let owners = socket_owners(&vec![
        dir("10", Some(vec![FdEntry::Link("socket:[8]".to_string())])),
        dir("20", Some(vec![link(), link()])),
        dir("30", Some(vec![link()])),
    ]);
    assert_eq!(owners.get(&7), Some(&20));
    assert_eq!(owners.get(&8), Some(&10));
    assert_eq!(owners.len(), 2);
}

#[test]
fn a_table_that_cannot_be_read_is_passed_over() {
    let tables: Tables<&str> = Tables {
        tcp: Err("first"),
        tcp6: Err("second"),
        udp: Ok(String::new()),
        udp6: Err("last"),
    };
    assert_eq!(read_tables(tables), Ok(vec![]));
}

#[test]
fn where_no_table_can_be_read_the_last_error_is_reported() {
    let tables: Tables<&str> = Tables {
        tcp: Err("first"),
        tcp6: Err("second"),
        udp: Err("third"),
        udp6: Err("last"),
    };
    assert_eq!(read_tables(tables), Err("last"));
}

#[test]
fn tables_are_named_as_their_files() {
    assert_eq!(Table::Tcp.file_name(), "tcp");
    assert_eq!(Table::Tcp6.file_name(), "tcp6");
    assert_eq!(Table::Udp.file_name(), "udp");
    assert_eq!(Table::Udp6.file_name(), "udp6");
}

#[test]
fn a_table_reads_the_same_without_its_heading() {
    let body = row(0, "0100007F:0016", "0A", 111);
    let with = format!("{TCP_HEADER}\n{body}");
    assert_eq!(parse_proc_net(&with, false), parse_proc_net(&body, false));
    assert_eq!(parse_proc_net(&body, false).len(), 1);
}

#[test]
fn a_malformed_row_takes_nothing_from_the_others() {
    let content = format!(
        "{}{}{}{}{}",
        row(0, "0100007F:0016", "0A", 1),
        row(1, "0100007F:0016", "XX", 2),
        row(2, "0100007F", "0A", 3),
        row(3, "0100007F:10000", "0A", 4),
        row(4, "0100007F:0017", "0A", 5),
    );
    let rows = parse_proc_net(&content, false);
    let inodes: Vec<u64> = rows.iter().map(|r| r.inode).collect();
    assert_eq!(inodes, vec![1, 5]);
}

#[test]
fn address_fields_that_are_no_hexadecimal_are_rejected() {
    assert_eq!(parse_ipv4_hex("0100007G"), None);
    assert_eq!(parse_ipv4_hex("ééééé"), None);
    assert_eq!(parse_ipv4_hex("aéaéaé"), None);
    assert_eq!(parse_ipv4_hex(""), None);
    assert_eq!(parse_ipv6_hex("g0000000000000000000000000000000"), None);
    assert_eq!(parse_addr_port("0100007F:1F90", true), None);
    assert_eq!(parse_addr_port("0100007F:", false), None);
}

#[test]
fn words_of_an_ipv6_address_are_reversed_each() {
    assert_eq!(
        parse_ipv6_hex("B80D01200000000067452301EFCDAB89"),
        Some(Ipv6Addr::new(0x2001, 0xdb8, 0, 0, 0x123, 0x4567, 0x89ab, 0xcdef))
    );
}

#[test]
fn inodes_stand_between_the_brackets_alone() {
    assert_eq!(parse_socket_inode("socket:[]"), None);
    assert_eq!(parse_socket_inode("socket:[12"), None);
    assert_eq!(parse_socket_inode("socket:[12]x"), None);
    assert_eq!(parse_socket_inode("xsocket:[12]"), None);
    assert_eq!(parse_socket_inode("socket:[18446744073709551615]"), Some(u64::MAX));
    assert_eq!(parse_socket_inode("socket:[18446744073709551616]"), None);
}

#[test]
fn only_numbers_name_processes() {
    assert_eq!(parse_pid("812"), Some(812));
    assert_eq!(parse_pid("self"), None);
    assert_eq!(parse_pid(""), None);
    assert_eq!(parse_pid("4294967296"), None);
}

#[test]
fn names_of_processes_are_trimmed() {
    assert_eq!(process_name("  tmux: server \n"), "tmux: server");
    assert_eq!(process_name("\n"), "");
}

#[test]
fn tables_after_one_another_read_as_each_does() {
    let a = row(0, "0100007F:0016", "0A", 1);
    let a = a.trim_end_matches('\n');
    let b = row(1, "0100007F:0017", "0A", 2);
    for first in ["", " \t\r", a, "x\r", "\n\n", TCP_HEADER] {
        let joined = format!("{first}\n{b}");
        let mut rows = parse_proc_net(first, false);
        rows.extend(parse_proc_net(&b, false));
        assert_eq!(parse_proc_net(&joined, false), rows, "{first:?}");
    }
    assert_eq!(parse_proc_net(&format!("{a}\r\n{b}"), false).len(), 2);
}

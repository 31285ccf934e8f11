//! What is shown.

use portwatch::addr::{IpAddr, Ipv4Addr, Ipv6Addr};
use portwatch::diff::{Change, DiffReport};
use portwatch::model::{PortEntry, Protocol, TcpState};

fn entry(port: u16, pid: Option<u32>, name: Option<&str>) -> PortEntry {
    PortEntry {
        protocol: Protocol::Tcp,
        local_addr: IpAddr::V4(Ipv4Addr::unspecified()),
        local_port: port,
        state: Some(TcpState::Listen),
        pid,
        process_name: name.map(str::to_string),
    }
}

#[test]
fn table_reports_empty_snapshot_clearly() {
    assert_eq!(portwatch::format::table(&[]), "no listening ports found");
}

#[test]
fn table_includes_header_and_all_rows() {
    let entries = vec![entry(22, Some(1), Some("sshd")), entry(8080, None, None)];
    let out = portwatch::format::table(&entries);
    assert!(out.contains("PROTO"));
    assert!(out.contains("22"));
    assert!(out.contains("sshd (1)"));
    assert!(out.contains("8080"));
    assert!(out.contains('-')); // unknown owner
}

#[test]
fn table_columns_align() {
    let entries = vec![
        entry(1, Some(1), Some("a")),
        entry(60000, Some(999_999), Some("bbbbbb")),
    ];
    let out = portwatch::format::table(&entries);
    let lines: Vec<&str> = out.lines().collect();
    // every line should be the same length once trailing space is
    // trimmed from the shortest and padding applied elsewhere
    assert_eq!(lines.len(), 3);
}

#[test]
fn diff_report_empty_says_no_changes() {
    assert_eq!(
        portwatch::format::diff_report(&DiffReport::default()),
        "no changes"
    );
}

#[test]
fn diff_report_formats_added_removed_and_owner_changed() {
    let report = DiffReport {
        changes: vec![
            Change::Added {
                entry: entry(80, Some(1), Some("nginx")),
            },
            Change::Removed {
                entry: entry(81, Some(2), Some("old")),
            },
            Change::OwnerChanged {
                protocol: Protocol::Tcp,
                local_addr: IpAddr::V4(Ipv4Addr::unspecified()),
                local_port: 443,
                old_pid: Some(3),
                old_process_name: Some("a".into()),
                new_pid: Some(4),
                new_process_name: Some("b".into()),
            },
        ],
    };
    let out = portwatch::format::diff_report(&report);
    assert!(out.contains("+ tcp/0.0.0.0:80 now listening"));
    assert!(out.contains("- tcp/0.0.0.0:81 no longer listening"));
    assert!(out.contains("~ tcp/0.0.0.0:443 owner changed: a (3) -> b (4)"));
}

#[test]
fn owner_label_variants() {
    assert_eq!(portwatch::format::owner_label(Some(1), Some("x")), "x (1)");
    assert_eq!(portwatch::format::owner_label(Some(1), None), "<unknown> (1)");
    assert_eq!(portwatch::format::owner_label(None, None), "-");
}

#[test]
fn a_name_without_a_pid_is_not_shown() {
    assert_eq!(portwatch::format::owner_label(None, Some("x")), "-");
}

#[test]
fn table_is_laid_out_exactly() {
    let mut udp = entry(5353, None, None);
    udp.protocol = Protocol::Udp;
    udp.state = None;
    udp.local_addr = IpAddr::V6(Ipv6Addr::new(0xfe80, 0, 0, 0, 0, 0, 0, 1));
    let entries = vec![entry(22, Some(1), Some("sshd")), udp];
    assert_eq!(
        portwatch::format::table(&entries),
        "PROTO  ADDRESS  PORT  STATE   PROCESS\n\
         tcp    0.0.0.0  22    LISTEN  sshd (1)\n\
         udp    fe80::1  5353  -       -"
    );
}

#[test]
fn every_cell_starts_with_its_column() {
    let entries = vec![
        entry(1, Some(1), Some("a")),
        entry(60000, Some(999_999), Some("Ünïcode näme")),
    ];
    let out = portwatch::format::table(&entries);
    let lines: Vec<Vec<char>> = out.lines().map(|l| l.chars().collect()).collect();
    let heading: String = lines[0].iter().collect();
    let at = heading.find("PROCESS").unwrap();
    assert_eq!(lines[1][at], 'a');
    assert_eq!(lines[2][at], 'Ü');
    let at = heading.find("STATE").unwrap();
    assert_eq!(lines[1][at..at + 6].iter().collect::<String>(), "LISTEN");
    assert_eq!(lines[2][at..at + 6].iter().collect::<String>(), "LISTEN");
}

#[test]
fn widths_count_characters_and_line_ends_are_trimmed() {
    let row = |a: &str, b: &str| {
        [
            a.to_string(),
            b.to_string(),
            "c".to_string(),
            "d".to_string(),
            String::new(),
        ]
    };
    let rows = vec![row("ä", "b"), row("aaa", "bb")];
    assert_eq!(
        portwatch::format::render_table(&rows),
        "ä    b   c  d\naaa  bb  c  d"
    );
}

#[test]
fn a_report_has_a_line_for_each_change_with_its_sign() {
    let report = DiffReport {
        changes: vec![
            Change::Added {
                entry: entry(1, None, None),
            },
            Change::Removed {
                entry: entry(2, Some(5), None),
            },
        ],
    };
    assert_eq!(
        portwatch::format::diff_report(&report),
        "+ tcp/0.0.0.0:1 now listening (-)\n\
         - tcp/0.0.0.0:2 no longer listening (was <unknown> (5))"
    );
}

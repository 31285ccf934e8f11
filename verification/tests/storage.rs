//! What is persisted.

use portwatch::addr::{IpAddr, Ipv4Addr};
use portwatch::diff::diff;
use portwatch::model::{PortEntry, Protocol, Snapshot, TcpState};
use portwatch::storage::{
    describe_history, describe_record, history_line, history_lines, invalid_snapshot,
    missing_snapshot, HistoryRecord,
};

fn entry(port: u16, pid: u32) -> PortEntry {
    PortEntry {
        protocol: Protocol::Tcp,
        local_addr: IpAddr::V4(Ipv4Addr::unspecified()),
        local_port: port,
        state: Some(TcpState::Listen),
        pid: Some(pid),
        process_name: Some(format!("proc{pid}")),
    }
}

fn record(added: usize, removed: usize, owner_changed: usize) -> HistoryRecord {
    HistoryRecord {
        baseline_captured_at_unix: 0,
        current_captured_at_unix: 86400,
        added,
        removed,
        owner_changed,
        changes: vec![],
    }
}

#[test]
fn describe_record_formats_summary_line() {
    let record = HistoryRecord {
        baseline_captured_at_unix: 0,
        current_captured_at_unix: 86400,
        added: 2,
        removed: 1,
        owner_changed: 3,
        changes: vec![],
    };
    let line = describe_record(&record);
    assert_eq!(
        line,
        "1970-01-01T00:00:00Z -> 1970-01-02T00:00:00Z: +2 -1 ~3"
    );
}

#[test]
fn empty_reports_are_not_logged() {
    let a = Snapshot::new(1, "h".into(), vec![entry(1, 1)]);
    let report = diff(&a, &a);
    let record = HistoryRecord::from_report(&a, &a, &report);
    assert!(!record.is_logged(), "no-change reports should not be logged");
}

#[test]
fn a_record_holds_its_report() {
    let a = Snapshot::new(1, "h".into(), vec![entry(1, 1), entry(3, 3), entry(4, 4)]);
    let b = Snapshot::new(2, "h".into(), vec![entry(1, 1), entry(2, 2), entry(4, 5)]);
    let report = diff(&a, &b);
    let record = HistoryRecord::from_report(&a, &b, &report);
    assert!(record.is_logged());
    assert_eq!(record.baseline_captured_at_unix, 1);
    assert_eq!(record.current_captured_at_unix, 2);
    assert_eq!(record.added, 1);
    assert_eq!(record.removed, 1);
    assert_eq!(record.owner_changed, 1);
    assert_eq!(record.changes, report.changes);
    assert_eq!(
        record.added + record.removed + record.owner_changed,
        record.changes.len()
    );
}

#[test]
fn what_is_appended_is_read_back() {
    let mut log = String::new();
    log.push_str(&history_line("{\"added\":1}"));
    log.push_str(&history_line("{\"added\":2}"));
    assert_eq!(log, "{\"added\":1}\n{\"added\":2}\n");
    assert_eq!(history_lines(&log), vec!["{\"added\":1}", "{\"added\":2}"]);
}

#[test]
fn records_with_changes_are_read_back() {
    let a = Snapshot::new(1, "h".into(), vec![entry(1, 1)]);
    let b = Snapshot::new(2, "h".into(), vec![entry(1, 1), entry(2, 2)]);
    let changed = HistoryRecord::from_report(&a, &b, &diff(&a, &b));
    let quiet = HistoryRecord::from_report(&b, &b, &diff(&b, &b));
    let mut log = String::new();
    for record in [&changed, &quiet, &changed] {
        if record.is_logged() {
            log.push_str(&history_line(&describe_record(record)));
        }
    }
    let lines = history_lines(&log);
    assert_eq!(lines, vec![describe_record(&changed), describe_record(&changed)]);
}

#[test]
fn blank_lines_are_no_records() {
    assert_eq!(history_lines(""), Vec::<String>::new());
    assert_eq!(history_lines("\n  \t\r\n\n"), Vec::<String>::new());
    assert_eq!(history_lines("a\r\n\n b \nc"), vec!["a", " b ", "c"]);
}

#[test]
fn history_is_described_line_by_line() {
    assert_eq!(
        describe_history(&vec![]),
        "no history yet - run `portwatch update` to start logging changes"
    );
    assert_eq!(
        describe_history(&vec![record(1, 0, 0), record(0, 10, 2)]),
        "1970-01-01T00:00:00Z -> 1970-01-02T00:00:00Z: +1 -0 ~0\n\
         1970-01-01T00:00:00Z -> 1970-01-02T00:00:00Z: +0 -10 ~2"
    );
}

#[test]
fn messages_name_the_file() {
    assert_eq!(
        missing_snapshot("nope.json"),
        "no snapshot found at nope.json - run `portwatch snapshot` first"
    );
    assert_eq!(
        invalid_snapshot("bad.json", "expected value at line 1 column 1"),
        "bad.json does not contain a valid snapshot: expected value at line 1 column 1"
    );
}

#[test]
fn copies_say_the_same() {
    let a = Snapshot::new(1, "h".into(), vec![entry(1, 1), entry(3, 3)]);
    let b = Snapshot::new(2, "h".into(), vec![entry(1, 2)]);
    assert_eq!(a.clone(), a);
    let report = diff(&a, &b);
    assert_eq!(report.clone(), report);
    let record = HistoryRecord::from_report(&a, &b, &report);
    let copy = record.clone();
    assert_eq!(copy.changes, record.changes);
    assert_eq!(describe_record(&copy), describe_record(&record));
}

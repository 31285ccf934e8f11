//! Commands, flags and exit status.

use portwatch::addr::{IpAddr, Ipv4Addr};
use portwatch::cli::{
    compared, exit_for_report, exit_status, listening_entries, parse_command, parse_flags,
    saved_message, Command, Outcome,
};
use portwatch::diff::{Change, DiffReport};
use portwatch::model::{PortEntry, Protocol, TcpState};

const DEFAULT_STATE: &str = "portwatch-state.json";
const DEFAULT_LOG: &str = "portwatch-history.jsonl";

#[test]
fn parse_flags_defaults() {
    let args = parse_flags(&[]).unwrap();
    assert_eq!(args.state, DEFAULT_STATE);
    assert_eq!(args.log, DEFAULT_LOG);
    assert!(!args.json);
}

#[test]
fn parse_flags_state_and_json() {
    let raw = vec![
        "--state".to_string(),
        "custom.json".to_string(),
        "--json".to_string(),
    ];
    let args = parse_flags(&raw).unwrap();
    assert_eq!(args.state, "custom.json");
    assert!(args.json);
}

#[test]
fn parse_flags_log() {
    let raw = vec!["--log".to_string(), "custom.jsonl".to_string()];
    let args = parse_flags(&raw).unwrap();
    assert_eq!(args.log, "custom.jsonl");
}

#[test]
fn parse_flags_rejects_unknown_option() {
    let raw = vec!["--nope".to_string()];
    assert!(parse_flags(&raw).is_err());
}

#[test]
fn parse_flags_state_missing_value_errors() {
    let raw = vec!["--state".to_string()];
    assert!(parse_flags(&raw).is_err());
}

#[test]
fn exit_for_report_empty_is_success() {
    assert_eq!(exit_for_report(true), 0);
    assert_eq!(exit_for_report(false), 2);
}

fn strings(args: &[&str]) -> Vec<String> {
    args.iter().map(|s| s.to_string()).collect()
}

#[test]
fn errors_of_flags_say_what_is_wrong() {
    let error = |args: &[&str]| parse_flags(&strings(args)).unwrap_err();
    assert_eq!(error(&["--nope"]), "unrecognized option: --nope");
    assert_eq!(error(&["--json", "--state"]), "--state requires a path argument");
    assert_eq!(error(&["--log"]), "--log requires a path argument");
    assert_eq!(error(&["x", "--log"]), "unrecognized option: x");
}

#[test]
fn the_last_of_a_flag_decides() {
    let args = parse_flags(&strings(&["--state", "a", "--log", "l", "--state", "--json"])).unwrap();
    assert_eq!(args.state, "--json");
    assert_eq!(args.log, "l");
    assert!(!args.json);
}

#[test]
fn commands_are_named() {
    assert_eq!(parse_command(None), Command::Help);
    assert_eq!(parse_command(Some("help")), Command::Help);
    assert_eq!(parse_command(Some("-h")), Command::Help);
    assert_eq!(parse_command(Some("--help")), Command::Help);
    assert_eq!(parse_command(Some("-V")), Command::Version);
    assert_eq!(parse_command(Some("--version")), Command::Version);
    assert_eq!(parse_command(Some("scan")), Command::Scan);
    assert_eq!(parse_command(Some("snapshot")), Command::Snapshot);
    assert_eq!(parse_command(Some("diff")), Command::Diff);
    assert_eq!(parse_command(Some("update")), Command::Update);
    assert_eq!(parse_command(Some("history")), Command::History);
    assert_eq!(parse_command(Some("bogus")), Command::Unrecognized);
    assert_eq!(parse_command(Some("")), Command::Unrecognized);
}

fn entry(port: u16, state: TcpState) -> PortEntry {
    PortEntry {
        protocol: Protocol::Tcp,
        local_addr: IpAddr::V4(Ipv4Addr::unspecified()),
        local_port: port,
        state: Some(state),
        pid: None,
        process_name: None,
    }
}

#[test]
fn the_exit_status_tells_of_errors_and_changes() {
    assert_eq!(exit_status(Outcome::Done), 0);
    assert_eq!(exit_status(Outcome::Failed), 1);
    assert_eq!(exit_status(compared(&DiffReport::default())), 0);
    let report = DiffReport {
        changes: vec![Change::Added {
            entry: entry(1, TcpState::Listen),
        }],
    };
    assert_eq!(compared(&report), Outcome::Changed);
    assert_eq!(exit_status(compared(&report)), 2);
}

#[test]
fn only_listening_sockets_are_counted() {
    let entries = vec![
        entry(1, TcpState::Listen),
        entry(2, TcpState::Established),
        entry(3, TcpState::Listen),
    ];
    let ports: Vec<u16> = listening_entries(&entries).iter().map(|e| e.local_port).collect();
    assert_eq!(ports, vec![1, 3]);
    assert_eq!(
        saved_message(&entries, "state.json"),
        "saved 2 listening port(s) to state.json"
    );
}

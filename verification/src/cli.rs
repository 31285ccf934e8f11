//! The command line: commands, flags, and exit status.

use crate::diff;
use crate::diff::{ChangeView, DiffReport};
use crate::model;
use crate::model::PortEntry;
use crate::text;
use vstd::prelude::*;
use vstd::string::*;

verus! {

/// What the first argument asks for.
#[derive(Debug, Clone, Copy, PartialEq, Eq, Structural)]
pub enum Command {
    Help,
    Version,
    Scan,
    Snapshot,
    Diff,
    Update,
    History,
    Unrecognized,
}

/// The command that the first argument names; without one, help.
pub open spec fn command_of(arg: Option<Seq<char>>) -> Command {
    match arg {
        None => Command::Help,
        Some(a) => if a == "help"@ || a == "-h"@ || a == "--help"@ {
            Command::Help
        } else if a == "-V"@ || a == "--version"@ {
            Command::Version
        } else if a == "scan"@ {
            Command::Scan
        } else if a == "snapshot"@ {
            Command::Snapshot
        } else if a == "diff"@ {
            Command::Diff
        } else if a == "update"@ {
            Command::Update
        } else if a == "history"@ {
            Command::History
        } else {
            Command::Unrecognized
        },
    }
}

/// The command that the first argument names.
#[must_use]
pub fn parse_command(arg: Option<&str>) -> (r: Command)
    ensures
        r == command_of(
            match arg {
                Some(a) => Some(a@),
                None => None,
            },
        ),
{
    match arg {
        None => Command::Help,
        Some(a) => {
            let c = text::chars_of(a);
            let c = c.as_slice();
            if text::is_text(c, "help") || text::is_text(c, "-h") || text::is_text(c, "--help") {
                Command::Help
            } else if text::is_text(c, "-V") || text::is_text(c, "--version") {
                Command::Version
            } else if text::is_text(c, "scan") {
                Command::Scan
            } else if text::is_text(c, "snapshot") {
                Command::Snapshot
            } else if text::is_text(c, "diff") {
                Command::Diff
            } else if text::is_text(c, "update") {
                Command::Update
            } else if text::is_text(c, "history") {
                Command::History
            } else {
                Command::Unrecognized
            }
        },
    }
}

/// The flags of a command.
#[derive(Debug, PartialEq, Eq)]
pub struct Args {
    pub state: String,
    pub log: String,
    pub json: bool,
}

/// What `Args` say.
pub struct ArgsView {
    pub state: Seq<char>,
    pub log: Seq<char>,
    pub json: bool,
}

impl View for Args {
    type V = ArgsView;

    open spec fn view(&self) -> ArgsView {
        ArgsView { state: self.state@, log: self.log@, json: self.json }
    }
}

/// The flags where none is given.
pub open spec fn default_args() -> ArgsView {
    ArgsView { state: "portwatch-state.json"@, log: "portwatch-history.jsonl"@, json: false }
}

/// What the arguments ask for, over what was asked for before them: each
/// flag in turn, a later one in place of an earlier one. The first argument
/// that is no flag, or a flag without its path, is an error.
pub open spec fn flags(rest: Seq<Seq<char>>, so_far: ArgsView) -> Result<ArgsView, Seq<char>>
    decreases rest.len(),
{
    if rest.len() == 0 {
        Ok(so_far)
    } else if rest[0] == "--state"@ {
        if rest.len() == 1 {
            Err("--state requires a path argument"@)
        } else {
            flags(rest.skip(2), ArgsView { state: rest[1], ..so_far })
        }
    } else if rest[0] == "--log"@ {
        if rest.len() == 1 {
            Err("--log requires a path argument"@)
        } else {
            flags(rest.skip(2), ArgsView { log: rest[1], ..so_far })
        }
    } else if rest[0] == "--json"@ {
        flags(rest.skip(1), ArgsView { json: true, ..so_far })
    } else {
        Err("unrecognized option: "@ + rest[0])
    }
}

/// What the arguments of a command ask for.
pub fn parse_flags(rest: &[String]) -> (r: Result<Args, String>)
    ensures
        match r {
            Ok(args) => flags(text::texts(rest@), default_args()) == Ok::<_, Seq<char>>(args@),
            Err(e) => flags(text::texts(rest@), default_args()) == Err::<ArgsView, _>(e@),
        },
{
    let mut args = Args {
        state: "portwatch-state.json".to_owned(),
        log: "portwatch-history.jsonl".to_owned(),
        json: false,
    };
    let ghost all = text::texts(rest@);
    let mut i: usize = 0;
    assert(all.skip(0) =~= all);
    while i < rest.len()
        invariant
            all == text::texts(rest@),
            i <= rest@.len(),
            flags(all, default_args()) == flags(all.skip(i as int), args@),
        decreases rest.len() - i,
    {
        let ghost left = all.skip(i as int);
        assert(left[0] == rest@[i as int]@);
        let c = text::chars_of(rest[i].as_str());
        let c = c.as_slice();
        if text::is_text(c, "--state") {
            if rest.len() - i == 1 {
                return Err("--state requires a path argument".to_owned());
            }
            assert(left[1] == rest@[i + 1]@);
            assert(left.skip(2) =~= all.skip(i + 2));
            args.state = rest[i + 1].clone();
            i += 2;
        } else if text::is_text(c, "--log") {
            if rest.len() - i == 1 {
                return Err("--log requires a path argument".to_owned());
            }
            assert(left[1] == rest@[i + 1]@);
            assert(left.skip(2) =~= all.skip(i + 2));
            args.log = rest[i + 1].clone();
            i += 2;
        } else if text::is_text(c, "--json") {
            assert(left.skip(1) =~= all.skip(i + 1));
            args.json = true;
            i += 1;
        } else {
            let mut e = "unrecognized option: ".to_owned();
            e.append(rest[i].as_str());
            return Err(e);
        }
    }
    Ok(args)
}

/// The exit status of a comparison, by whether its report is empty: zero
/// for no change, two for any.
#[must_use]
pub fn exit_for_report(is_empty: bool) -> (r: u8)
    ensures
        r == if is_empty {
            0u8
        } else {
            2u8
        },
{
    if is_empty {
        0
    } else {
        2
    }
}

/// How a command ended.
#[derive(Debug, Clone, Copy, PartialEq, Eq, Structural)]
pub enum Outcome {
    /// An error occurred.
    Failed,
    /// The command did what it was asked for.
    Done,
    /// Two snapshots were compared, and nothing changed.
    Unchanged,
    /// Two snapshots were compared, and something changed.
    Changed,
}

/// How a comparison with this report ends.
pub open spec fn outcome_of(changes: Seq<ChangeView>) -> Outcome {
    if changes.len() == 0 {
        Outcome::Unchanged
    } else {
        Outcome::Changed
    }
}

/// How a comparison with this report ends.
#[must_use]
pub fn compared(report: &DiffReport) -> (r: Outcome)
    ensures
        r == outcome_of(report@),
{
    if report.is_empty() {
        Outcome::Unchanged
    } else {
        Outcome::Changed
    }
}

/// The exit status of a command: zero for success, one for an error, two
/// for success where something changed.
pub open spec fn status_of(outcome: Outcome) -> u8 {
    match outcome {
        Outcome::Done => 0,
        Outcome::Unchanged => 0,
        Outcome::Failed => 1,
        Outcome::Changed => 2,
    }
}

/// The exit status of a command.
#[must_use]
pub fn exit_status(outcome: Outcome) -> (r: u8)
    ensures
        r == status_of(outcome),
{
    match outcome {
        Outcome::Failed => 1,
        Outcome::Done => 0,
        Outcome::Unchanged => exit_for_report(true),
        Outcome::Changed => exit_for_report(false),
    }
}

/// The entries that count as listening, in order.
#[must_use]
pub fn listening_entries(entries: &[PortEntry]) -> (r: Vec<PortEntry>)
    ensures
        model::entry_views(r@) == diff::listening(model::entry_views(entries@)),
{
    let ghost all = model::entry_views(entries@);
    let mut out: Vec<PortEntry> = Vec::new();
    let mut i: usize = 0;
    assert(model::entry_views(out@) =~= diff::listening(all.take(0)));
    while i < entries.len()
        invariant
            all == model::entry_views(entries@),
            i <= entries@.len(),
            model::entry_views(out@) == diff::listening(all.take(i as int)),
        decreases entries.len() - i,
    {
        proof {
            assert(all.take(i + 1).drop_last() =~= all.take(i as int));
            assert(all.take(i + 1).last() == entries@[i as int]@);
        }
        if entries[i].is_listening() {
            let ghost before = model::entry_views(out@);
            let e = entries[i].clone();
            out.push(e);
            assert(model::entry_views(out@) =~= before.push(e@));
        }
        i += 1;
    }
    assert(all.take(i as int) =~= all);
    out
}

/// The message after a baseline was saved.
#[must_use]
pub fn saved_message(entries: &[PortEntry], path: &str) -> (r: String)
    ensures
        r@ == "saved "@ + text::decimal(diff::listening(model::entry_views(entries@)).len())
            + " listening port(s) to "@ + path@,
{
    let listening = listening_entries(entries);
    assert(model::entry_views(listening@).len() == listening@.len());
    let mut out = "saved ".to_owned();
    text::push_decimal(&mut out, listening.len() as u64);
    out.append(" listening port(s) to ");
    out.append(path);
    out
}

} // verus!

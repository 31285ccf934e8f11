//! Inventory of a machine's listening TCP and UDP ports and the processes
//! that own them: snapshots of it, what changed between two snapshots, and
//! how that is shown and logged.
//!
//! Every function is proved to compute what its contract says. The
//! contracts speak of the views of the data (`PortEntryView`,
//! `SnapshotView`, `ChangeView`, texts as sequences of characters) through
//! the specification functions that stand beside the code. What holds of
//! several functions together is stated in the modules named `*_laws`.
//!
//! Nothing here touches the operating system but the clock. The
//! platform modules (`linux`, `macos`, `windows`) work on what was read
//! from it: the text of `/proc`, the output of `lsof`, the words of an IP
//! Helper table.

use crate::model::{PortEntry, Snapshot};
use crate::source::PortSource;
use std::time::{Duration, SystemTimeError};
use vstd::prelude::*;
use vstd::string::*;

pub mod addr;
pub mod addr_laws;
pub mod cli;
pub mod cli_laws;
pub mod diff;
pub mod diff_laws;
pub mod format;
pub mod format_laws;
pub mod linux;
pub mod linux_laws;
pub mod macos;
pub mod macos_laws;
pub mod model;
pub mod model_laws;
pub mod order;
pub mod results_laws;
pub mod source;
pub mod storage;
pub mod storage_laws;
pub mod text;
pub mod text_laws;
pub mod timefmt;
pub mod timefmt_laws;
pub mod windows;
pub mod windows_laws;

verus! {

/// `std::time::SystemTimeError`, the error where an earlier point in time
/// was given than the one to measure from.
#[verifier::external_type_specification]
#[verifier::external_body]
pub struct ExSystemTimeError(SystemTimeError);

/// `SystemTime::elapsed`, measured from the Unix epoch: how long ago that
/// was by the system's clock. The clock may show any time, also one before
/// the epoch, so nothing is claimed of the result.
#[verifier::external_body]
fn since_epoch() -> (r: Result<Duration, SystemTimeError>) {
    std::time::UNIX_EPOCH.elapsed()
}

/// `Duration::as_secs`: the whole seconds in a duration. Nothing is claimed
/// of how many they are.
pub assume_specification[ Duration::as_secs ](d: &Duration) -> (r: u64);

/// The seconds, or zero where the clock shows a time before the epoch.
#[must_use]
pub fn seconds_or_zero(seconds: Option<u64>) -> (r: u64)
    ensures
        r == match seconds {
            Some(s) => s,
            None => 0,
        },
{
    match seconds {
        Some(s) => s,
        None => 0,
    }
}

/// Whether the clock can have shown this, as the time since the Unix epoch.
pub closed spec fn clock_shows(elapsed: Result<Duration, SystemTimeError>) -> bool {
    call_ensures(since_epoch, (), elapsed)
}

/// Whether these are the seconds for what the clock shows: the whole seconds
/// since the epoch, or zero where it shows a time before the epoch.
pub open spec fn is_seconds_of(elapsed: Result<Duration, SystemTimeError>, seconds: u64) -> bool {
    match elapsed {
        Ok(d) => call_ensures(Duration::as_secs, (&d,), seconds),
        Err(_) => seconds == 0,
    }
}

/// Whether the seconds are those of a reading of the clock.
pub open spec fn is_reading(seconds: u64) -> bool {
    exists|elapsed: Result<Duration, SystemTimeError>| #[trigger]
        clock_shows(elapsed) && is_seconds_of(elapsed, seconds)
}

/// Current time as seconds since the Unix epoch, saturating to 0 if the
/// system clock is somehow set before 1970. What the clock shows is not
/// known: the result is that of a reading of it, whatever it showed.
#[must_use]
pub fn now_unix() -> (r: u64)
    ensures
        is_reading(r),
{
    let elapsed = since_epoch();
    assert(clock_shows(elapsed));
    let seconds = match elapsed {
        Ok(d) => Some(d.as_secs()),
        Err(_) => None,
    };
    seconds_or_zero(seconds)
}

/// The name of the host, from the values of the environment variables that
/// usually hold it, the first that is set.
pub open spec fn host_text(
    host_var: Option<Seq<char>>,
    computer_var: Option<Seq<char>>,
) -> Seq<char> {
    match (host_var, computer_var) {
        (Some(h), _) => h,
        (None, Some(c)) => c,
        (None, None) => "unknown"@,
    }
}

/// Best-effort local hostname, from the values of `HOSTNAME` and
/// `COMPUTERNAME`, falling back to `"unknown"` if neither is set.
#[must_use]
pub fn hostname(host_var: Option<String>, computer_var: Option<String>) -> (r: String)
    ensures
        r@ == host_text(model::name_view(host_var), model::name_view(computer_var)),
{
    match (host_var, computer_var) {
        (Some(h), _) => h,
        (None, Some(c)) => c,
        (None, None) => "unknown".to_owned(),
    }
}

/// The snapshot of what a scan found, or the error that the scan ended in.
pub fn captured(
    scanned: std::io::Result<Vec<PortEntry>>,
    captured_at_unix: u64,
    hostname: String,
) -> (r: std::io::Result<Snapshot>)
    ensures
        match r {
            Ok(s) => scanned matches Ok(entries) && s@.captured_at_unix == captured_at_unix
                && s@.hostname == hostname@ && model::is_sort_of(
                s@.entries,
                model::entry_views(entries@),
            ),
            Err(e) => scanned == Err::<Vec<PortEntry>, _>(e),
        },
{
    match scanned {
        Ok(entries) => Ok(Snapshot::new(captured_at_unix, hostname, entries)),
        Err(e) => Err(e),
    }
}

/// Capture a snapshot of what a source finds now, or the error that its
/// scan ended in.
pub fn capture<S: PortSource>(source: &S, hostname: String) -> (r: std::io::Result<Snapshot>)
    ensures
        match r {
            Ok(s) => is_reading(s@.captured_at_unix) && s@.hostname == hostname@ && exists|
                entries: Vec<PortEntry>,
            | #[trigger]
                call_ensures(S::scan, (source,), Ok::<_, std::io::Error>(entries))
                    && model::is_sort_of(s@.entries, model::entry_views(entries@)),
            Err(e) => call_ensures(S::scan, (source,), Err::<Vec<PortEntry>, _>(e)),
        },
{
    let scanned = source.scan();
    captured(scanned, now_unix(), hostname)
}

} // verus!

# portwatch

Inventory of a machine's listening TCP and UDP ports and the processes that
own them, and what changed since the last snapshot. The library under `src/`
is written in Verus: every function in it is proved to do what its contract
says, for every input.

```text
portwatch scan       [--json]                               print current listening ports
portwatch snapshot   [--state PATH] [--json]                capture and save a baseline
portwatch diff       [--state PATH] [--json]                compare live ports to the baseline
portwatch update     [--state PATH] [--log PATH] [--json]   diff, then re-save the baseline
portwatch history    [--log PATH] [--json]                  print previously logged changes
```

The exit status is 0 for success (for `diff` and `update`: no changes), 1 for
an error, and 2 where `diff` or `update` found a change.

## What is compared

A listener is identified by its protocol, address and port, not by its pid: a
restarted service is one owner change rather than a removal and an addition. A
port can have several owners at once, so what is compared at each socket is
the whole set of owners. `src/diff_laws.rs` states what follows: the order of
a scan is never a change, a co-owner that joins or leaves is an addition or a
removal, and only a handover from one owner to another, however many sockets
each holds there, is an owner change.

## Layout

| | |
| --- | --- |
| `src/model.rs`, `src/order.rs` | entries, snapshots, states; sorting by key |
| `src/diff.rs` | comparing two snapshots |
| `src/format.rs`, `src/timefmt.rs` | tables, reports, times as text |
| `src/storage.rs`, `src/cli.rs` | history records, commands, flags, exit status |
| `src/linux.rs`, `src/macos.rs`, `src/windows.rs` | what `/proc`, `lsof` and the IP Helper API say |
| `src/addr.rs`, `src/text.rs` | addresses and texts |
| `src/source.rs`, `src/lib.rs` | the `PortSource` trait; capturing a snapshot |
| `src/*_laws.rs` | what holds of several functions together |
| `tests/` | examples with their results |
| `app/` | the command-line program: files, processes, system calls, JSON |

Contracts speak of views: an entry is seen as a `PortEntryView`, a snapshot as
a `SnapshotView`, a text as a sequence of characters. The specification
functions say what a text, a table or a comparison means, and each executable
function is proved to compute exactly that.

## What is taken on trust

Four facts about the standard library are used without proof, each stated
where it is used: what `String::push` and `char::from_u32` do, and that the
system's clock (`SystemTime::elapsed`, `Duration::as_secs`) may show any time.
The contents of `app/` are ordinary Rust.

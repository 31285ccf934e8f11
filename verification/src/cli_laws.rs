//! Laws of the command line: what the exit status tells, and how flags
//! combine.

use crate::cli;
use crate::cli::{Args, ArgsView, Outcome};
use crate::diff;
use crate::diff::ChangeView;
use crate::diff_laws;
use crate::model::{Key, SnapshotView};
use vstd::prelude::*;

verus! {

/// The exit status is one exactly for an error, and two exactly for a
/// comparison that found a change.
pub proof fn status_tells_the_outcome(outcome: Outcome)
    ensures
        cli::status_of(outcome) == 1 <==> outcome is Failed,
        cli::status_of(outcome) == 2 <==> outcome is Changed,
        cli::status_of(outcome) <= 2,
{
}

/// Comparing two snapshots ends in status zero exactly where every socket
/// has the same listening owners in both, and in two otherwise.
pub proof fn status_tells_of_changes(baseline: SnapshotView, current: SnapshotView)
    ensures
        ({
            let status = cli::status_of(
                cli::outcome_of(diff::changes_between(baseline, current)),
            );
            &&& status == 0 || status == 2
            &&& status == 0 <==> forall|key: Key|
                #![trigger diff::owners_at(baseline, key)]
                diff_laws::same_owners(
                    diff::owners_at(baseline, key),
                    diff::owners_at(current, key),
                )
        }),
{
    diff_laws::unchanged_iff_same_owners(baseline, current);
}

/// Flags take effect one after the other: what stands behind flags that
/// were understood is read as if it stood alone, over what they asked for.
pub proof fn flags_combine(a: Seq<Seq<char>>, b: Seq<Seq<char>>, so_far: ArgsView, then: ArgsView)
    requires
        cli::flags(a, so_far) == Ok::<_, Seq<char>>(then),
    ensures
        cli::flags(a + b, so_far) == cli::flags(b, then),
    decreases a.len(),
{
    let s = a + b;
    if a.len() == 0 {
        assert(s =~= b);
    } else {
        assert(s[0] == a[0]);
        if a[0] == "--state"@ {
            assert(s[1] == a[1]);
            assert(s.skip(2) =~= a.skip(2) + b);
            flags_combine(a.skip(2), b, ArgsView { state: a[1], ..so_far }, then);
        } else if a[0] == "--log"@ {
            assert(s[1] == a[1]);
            assert(s.skip(2) =~= a.skip(2) + b);
            flags_combine(a.skip(2), b, ArgsView { log: a[1], ..so_far }, then);
        } else {
            assert(s.skip(1) =~= a.skip(1) + b);
            flags_combine(a.skip(1), b, ArgsView { json: true, ..so_far }, then);
        }
    }
}

/// A flag that comes last decides, whatever came before it, and leaves the
/// other flags as they were.
pub proof fn last_flag_decides(
    before: Seq<Seq<char>>,
    so_far: ArgsView,
    then: ArgsView,
    path: Seq<char>,
)
    requires
        cli::flags(before, so_far) == Ok::<_, Seq<char>>(then),
    ensures
        cli::flags(before + seq!["--state"@, path], so_far) == Ok::<_, Seq<char>>(
            ArgsView { state: path, ..then },
        ),
        cli::flags(before + seq!["--log"@, path], so_far) == Ok::<_, Seq<char>>(
            ArgsView { log: path, ..then },
        ),
        cli::flags(before + seq!["--json"@], so_far) == Ok::<_, Seq<char>>(
            ArgsView { json: true, ..then },
        ),
{
    reveal_strlit("--state");
    reveal_strlit("--log");
    reveal_strlit("--json");
    assert("--state"@.len() != "--log"@.len());
    assert("--state"@.len() != "--json"@.len());
    assert("--log"@.len() != "--json"@.len());
    let a = seq!["--state"@, path];
    let b = seq!["--log"@, path];
    let c = seq!["--json"@];
    flags_combine(before, a, so_far, then);
    flags_combine(before, b, so_far, then);
    flags_combine(before, c, so_far, then);
    assert(a.skip(2) =~= seq![]);
    assert(b.skip(2) =~= seq![]);
    assert(c.skip(1) =~= seq![]);
    reveal_with_fuel(cli::flags, 2);
}

/// Success and a comparison without changes end in zero, a comparison finds
/// changes exactly if there is one.
pub proof fn outcome_tells_of_changes(changes: Seq<ChangeView>)
    ensures
        cli::outcome_of(changes) is Changed <==> changes.len() > 0,
        cli::outcome_of(changes) is Unchanged <==> changes.len() == 0,
        cli::status_of(Outcome::Done) == 0,
        cli::status_of(Outcome::Unchanged) == 0,
{
}

/// The words that name each command; no other text does, and no text at all
/// asks for help.
pub proof fn commands_have_their_words(a: Seq<char>)
    ensures
        cli::command_of(None) is Help,
        cli::command_of(Some(a)) is Help <==> a == "help"@ || a == "-h"@ || a == "--help"@,
        cli::command_of(Some(a)) is Version <==> a == "-V"@ || a == "--version"@,
        cli::command_of(Some(a)) is Scan <==> a == "scan"@,
        cli::command_of(Some(a)) is Snapshot <==> a == "snapshot"@,
        cli::command_of(Some(a)) is Diff <==> a == "diff"@,
        cli::command_of(Some(a)) is Update <==> a == "update"@,
        cli::command_of(Some(a)) is History <==> a == "history"@,
{
    reveal_strlit("help");
    reveal_strlit("-h");
    reveal_strlit("--help");
    reveal_strlit("-V");
    reveal_strlit("--version");
    reveal_strlit("scan");
    reveal_strlit("snapshot");
    reveal_strlit("diff");
    reveal_strlit("update");
    reveal_strlit("history");
    assert("help"@[0] == 'h' && "scan"@[0] == 's' && "diff"@[0] == 'd');
    assert("-h"@[1] == 'h' && "-V"@[1] == 'V');
    assert("--help"@[0] == '-' && "update"@[0] == 'u');
    assert("help"@.len() == 4 && "scan"@.len() == 4 && "diff"@.len() == 4 && "-h"@.len() == 2
        && "-V"@.len() == 2);
    assert("--help"@.len() == 6 && "update"@.len() == 6 && "--version"@.len() == 9
        && "snapshot"@.len() == 8 && "history"@.len() == 7);
}

/// Without flags, the paths are the usual ones in the working directory, and
/// the output is no JSON.
pub proof fn no_flags_ask_for_the_defaults()
    ensures
        cli::flags(seq![], cli::default_args()) == Ok::<ArgsView, Seq<char>>(
            ArgsView {
                state: "portwatch-state.json"@,
                log: "portwatch-history.jsonl"@,
                json: false,
            },
        ),
{
}

/// The first argument that is no flag is named in the error, whatever stands
/// behind it.
pub proof fn first_unknown_flag_is_named(
    before: Seq<Seq<char>>,
    flag: Seq<char>,
    behind: Seq<Seq<char>>,
    so_far: ArgsView,
)
    requires
        cli::flags(before, so_far) is Ok,
        flag != "--state"@,
        flag != "--log"@,
        flag != "--json"@,
    ensures
        cli::flags(before + (seq![flag] + behind), so_far) == Err::<ArgsView, Seq<char>>(
            "unrecognized option: "@ + flag,
        ),
{
    let rest = seq![flag] + behind;
    flags_combine(before, rest, so_far, cli::flags(before, so_far)->Ok_0);
    assert(rest[0] == flag);
}

/// A flag for a path needs one: at the very end it is an error, which names
/// the flag.
pub proof fn path_must_follow(before: Seq<Seq<char>>, so_far: ArgsView)
    requires
        cli::flags(before, so_far) is Ok,
    ensures
        cli::flags(before + seq!["--state"@], so_far) == Err::<ArgsView, Seq<char>>(
            "--state requires a path argument"@,
        ),
        cli::flags(before + seq!["--log"@], so_far) == Err::<ArgsView, Seq<char>>(
            "--log requires a path argument"@,
        ),
{
    reveal_strlit("--state");
    reveal_strlit("--log");
    assert("--state"@.len() != "--log"@.len());
    let then = cli::flags(before, so_far)->Ok_0;
    flags_combine(before, seq!["--state"@], so_far, then);
    flags_combine(before, seq!["--log"@], so_far, then);
}

/// The view of the arguments has all that the arguments have.
pub proof fn view_keeps_the_args(a: Args)
    ensures
        a@.state == a.state@,
        a@.log == a.log@,
        a@.json == a.json,
{
}

/// The host is named by the first variable that is set, the host's own before
/// the computer's; where neither is, its name is not known.
pub proof fn host_is_the_first_that_is_set(
    host_var: Option<Seq<char>>,
    computer_var: Option<Seq<char>>,
)
    ensures
        host_var is Some ==> crate::host_text(host_var, computer_var) == host_var->0,
        host_var is None && computer_var is Some ==> crate::host_text(host_var, computer_var)
            == computer_var->0,
        host_var is None && computer_var is None ==> crate::host_text(host_var, computer_var)
            == seq!['u', 'n', 'k', 'n', 'o', 'w', 'n'],
{
    reveal_strlit("unknown");
}

} // verus!

//! What holds of every comparison of two snapshots.

use crate::addr::IpAddr;
use crate::diff;
use crate::diff::{Change, ChangeView, DiffReport};
use crate::model;
use crate::model::{Key, PortEntryView, Protocol, SnapshotView, TcpState};
use crate::model_laws;
use vstd::prelude::*;
use vstd::seq_lib::*;

verus! {

/// Who holds a socket.
pub type Owner = (Option<u32>, Option<Seq<char>>);

/// Whether the two rows of entries have the same set of owners.
pub open spec fn same_owners(a: Seq<PortEntryView>, b: Seq<PortEntryView>) -> bool {
    forall|o: Owner| #[trigger] diff::has_owner(a, o) <==> diff::has_owner(b, o)
}

/// The changes about one socket, in order.
pub open spec fn changes_at(changes: Seq<ChangeView>, key: Key) -> Seq<ChangeView>
    decreases changes.len(),
{
    if changes.len() == 0 {
        seq![]
    } else {
        let rest = changes_at(changes.drop_last(), key);
        if changes.last().key() == key {
            rest.push(changes.last())
        } else {
            rest
        }
    }
}

/// Whether the report says that this owner now holds the socket.
pub open spec fn reports_joined(changes: Seq<ChangeView>, key: Key, owner: Owner) -> bool {
    exists|i: int|
        0 <= i < changes.len() && match #[trigger] changes[i] {
            ChangeView::Added { entry } => entry.key() == key && entry.owner() == owner,
            ChangeView::OwnerChanged { key: k, new_owner, .. } => k == key && new_owner == owner,
            ChangeView::Removed { .. } => false,
        }
}

/// Whether the report says that this owner no longer holds the socket.
pub open spec fn reports_left(changes: Seq<ChangeView>, key: Key, owner: Owner) -> bool {
    exists|i: int|
        0 <= i < changes.len() && match #[trigger] changes[i] {
            ChangeView::Removed { entry } => entry.key() == key && entry.owner() == owner,
            ChangeView::OwnerChanged { key: k, old_owner, .. } => k == key && old_owner == owner,
            ChangeView::Added { .. } => false,
        }
}

// ---------------------------------------------------------------------
// Facts about the parts of a comparison
// ---------------------------------------------------------------------

/// The entries at a key are those entries that have it.
pub proof fn lemma_at_key(entries: Seq<PortEntryView>, key: Key)
    ensures
        forall|i: int|
            0 <= i < model::at_key(entries, key).len() ==> (#[trigger] model::at_key(
                entries,
                key,
            )[i]).key() == key && entries.contains(model::at_key(entries, key)[i]),
        forall|i: int|
            0 <= i < entries.len() && (#[trigger] entries[i]).key() == key ==> model::at_key(
                entries,
                key,
            ).contains(entries[i]),
    decreases entries.len(),
{
    if entries.len() > 0 {
        let rest = entries.drop_last();
        lemma_at_key(rest, key);
        let r = model::at_key(rest, key);
        let a = model::at_key(entries, key);
        assert forall|i: int| 0 <= i < a.len() implies (#[trigger] a[i]).key() == key
            && entries.contains(a[i]) by {
            if i < r.len() {
                assert(a[i] == r[i]);
                assert(rest.contains(r[i]));
                let k = choose|k: int| 0 <= k < rest.len() && rest[k] == r[i];
                assert(entries[k] == a[i]);
            } else {
                assert(entries[entries.len() - 1] == a[i]);
            }
        }
        assert forall|i: int|
            0 <= i < entries.len() && (#[trigger] entries[i]).key() == key implies a.contains(
            entries[i],
        ) by {
            if i < rest.len() {
                assert(rest[i] == entries[i]);
                assert(r.contains(rest[i]));
                let k = choose|k: int| 0 <= k < r.len() && r[k] == rest[i];
                assert(a[k] == entries[i]);
            } else {
                assert(a[a.len() - 1] == entries[i]);
            }
        }
    }
}

/// The listening entries are those entries that are listening.
pub proof fn lemma_listening(entries: Seq<PortEntryView>)
    ensures
        forall|i: int|
            0 <= i < diff::listening(entries).len() ==> (#[trigger] diff::listening(
                entries,
            )[i]).listening() && entries.contains(diff::listening(entries)[i]),
        forall|i: int|
            0 <= i < entries.len() && (#[trigger] entries[i]).listening() ==> diff::listening(
                entries,
            ).contains(entries[i]),
    decreases entries.len(),
{
    if entries.len() > 0 {
        let rest = entries.drop_last();
        lemma_listening(rest);
        let r = diff::listening(rest);
        let a = diff::listening(entries);
        assert forall|i: int| 0 <= i < a.len() implies (#[trigger] a[i]).listening()
            && entries.contains(a[i]) by {
            if i < r.len() {
                assert(a[i] == r[i]);
                assert(rest.contains(r[i]));
                let k = choose|k: int| 0 <= k < rest.len() && rest[k] == r[i];
                assert(entries[k] == a[i]);
            } else {
                assert(entries[entries.len() - 1] == a[i]);
            }
        }
        assert forall|i: int|
            0 <= i < entries.len() && (#[trigger] entries[i]).listening() implies a.contains(
            entries[i],
        ) by {
            if i < rest.len() {
                assert(rest[i] == entries[i]);
                assert(r.contains(rest[i]));
                let k = choose|k: int| 0 <= k < r.len() && r[k] == rest[i];
                assert(a[k] == entries[i]);
            } else {
                assert(a[a.len() - 1] == entries[i]);
            }
        }
    }
}

/// The owners at a key are the listening entries of the snapshot that have
/// the key.
pub proof fn lemma_owners_at(s: SnapshotView, key: Key)
    ensures
        forall|i: int|
            0 <= i < diff::owners_at(s, key).len() ==> (#[trigger] diff::owners_at(
                s,
                key,
            )[i]).key() == key && diff::owners_at(s, key)[i].listening() && s.entries.contains(
                diff::owners_at(s, key)[i],
            ),
        forall|i: int|
            0 <= i < s.entries.len() && (#[trigger] s.entries[i]).key() == key
                && s.entries[i].listening() ==> diff::owners_at(s, key).contains(s.entries[i]),
{
    let l = diff::listening(s.entries);
    let a = diff::owners_at(s, key);
    lemma_listening(s.entries);
    lemma_at_key(l, key);
    assert forall|i: int| 0 <= i < a.len() implies (#[trigger] a[i]).key() == key
        && a[i].listening() && s.entries.contains(a[i]) by {
        assert(l.contains(a[i]));
        let k = choose|k: int| 0 <= k < l.len() && l[k] == a[i];
        assert(l[k].listening());
    }
    assert forall|i: int|
        0 <= i < s.entries.len() && (#[trigger] s.entries[i]).key() == key
            && s.entries[i].listening() implies a.contains(s.entries[i]) by {
        assert(l.contains(s.entries[i]));
        let k = choose|k: int| 0 <= k < l.len() && l[k] == s.entries[i];
        assert(a.contains(l[k]));
    }
}

/// The unmatched entries of `a` are those whose owner has no entry in `b`.
pub proof fn lemma_unmatched(a: Seq<PortEntryView>, b: Seq<PortEntryView>)
    ensures
        diff::unmatched(a, b).len() <= a.len(),
        forall|i: int|
            0 <= i < diff::unmatched(a, b).len() ==> a.contains(
                #[trigger] diff::unmatched(a, b)[i],
            ) && !diff::has_owner(b, diff::unmatched(a, b)[i].owner()),
        forall|i: int|
            0 <= i < a.len() && !diff::has_owner(b, (#[trigger] a[i]).owner())
                ==> diff::unmatched(a, b).contains(a[i]),
    decreases a.len(),
{
    if a.len() > 0 {
        let rest = a.drop_last();
        lemma_unmatched(rest, b);
        let r = diff::unmatched(rest, b);
        let u = diff::unmatched(a, b);
        assert forall|i: int| 0 <= i < u.len() implies a.contains(#[trigger] u[i])
            && !diff::has_owner(b, u[i].owner()) by {
            if i < r.len() {
                assert(u[i] == r[i]);
                assert(rest.contains(r[i]));
                let k = choose|k: int| 0 <= k < rest.len() && rest[k] == r[i];
                assert(a[k] == u[i]);
            } else {
                assert(a[a.len() - 1] == u[i]);
            }
        }
        assert forall|i: int|
            0 <= i < a.len() && !diff::has_owner(b, (#[trigger] a[i]).owner()) implies u.contains(
            a[i],
        ) by {
            if i < rest.len() {
                assert(rest[i] == a[i]);
                assert(r.contains(rest[i]));
                let k = choose|k: int| 0 <= k < r.len() && r[k] == rest[i];
                assert(u[k] == a[i]);
            } else {
                assert(u[u.len() - 1] == a[i]);
            }
        }
    }
}

/// Nothing is reported of a socket exactly where the two sets of owners
/// are the same.
pub proof fn lemma_key_unchanged(key: Key, a: Seq<PortEntryView>, b: Seq<PortEntryView>)
    ensures
        diff::key_changes(key, a, b).len() == 0 <==> same_owners(a, b),
{
    lemma_unmatched(a, b);
    lemma_unmatched(b, a);
    let left = diff::unmatched(a, b);
    let joined = diff::unmatched(b, a);
    if same_owners(a, b) {
        if left.len() > 0 {
            let x = left[0];
            assert(a.contains(x));
            let k = choose|k: int| 0 <= k < a.len() && a[k] == x;
            assert(a[k].owner() == x.owner());
            assert(diff::has_owner(a, x.owner()));
        }
        if joined.len() > 0 {
            let x = joined[0];
            assert(b.contains(x));
            let k = choose|k: int| 0 <= k < b.len() && b[k] == x;
            assert(b[k].owner() == x.owner());
            assert(diff::has_owner(b, x.owner()));
            assert(diff::has_owner(a, x.owner()));
        }
    }
    if diff::key_changes(key, a, b).len() == 0 {
        assert(left.len() == 0 && joined.len() == 0);
        assert forall|o: Owner| #[trigger] diff::has_owner(a, o) <==> diff::has_owner(b, o) by {
            if diff::has_owner(a, o) {
                let k = choose|k: int| 0 <= k < a.len() && (#[trigger] a[k]).owner() == o;
                if !diff::has_owner(b, a[k].owner()) {
                    assert(left.contains(a[k]));
                }
            }
            if diff::has_owner(b, o) {
                let k = choose|k: int| 0 <= k < b.len() && (#[trigger] b[k]).owner() == o;
                if !diff::has_owner(a, b[k].owner()) {
                    assert(joined.contains(b[k]));
                }
            }
        }
    }
}

/// What is reported of a socket is about that socket.
pub proof fn lemma_key_changes_key(
    baseline: SnapshotView,
    current: SnapshotView,
    key: Key,
)
    ensures
        forall|i: int|
            0 <= i < report_on(baseline, current, key).len() ==> (#[trigger] report_on(
                baseline,
                current,
                key,
            )[i]).key() == key,
{
    let a = diff::owners_at(baseline, key);
    let b = diff::owners_at(current, key);
    lemma_owners_at(baseline, key);
    lemma_owners_at(current, key);
    lemma_unmatched(a, b);
    lemma_unmatched(b, a);
    let left = diff::unmatched(a, b);
    let joined = diff::unmatched(b, a);
    let r = report_on(baseline, current, key);
    assert forall|i: int| 0 <= i < r.len() implies (#[trigger] r[i]).key() == key by {
        if !(diff::one_owner(a) && diff::one_owner(b)) {
            if i < left.len() {
                assert(a.contains(left[i]));
            } else {
                assert(b.contains(joined[i - left.len()]));
            }
        }
    }
}

/// What is reported of one socket of two snapshots.
pub open spec fn report_on(
    baseline: SnapshotView,
    current: SnapshotView,
    key: Key,
) -> Seq<ChangeView> {
    diff::key_changes(key, diff::owners_at(baseline, key), diff::owners_at(current, key))
}

/// Changes after one another: about a socket, those of the first, then
/// those of the second.
proof fn lemma_changes_at_add(a: Seq<ChangeView>, b: Seq<ChangeView>, key: Key)
    ensures
        changes_at(a + b, key) == changes_at(a, key) + changes_at(b, key),
    decreases b.len(),
{
    if b.len() == 0 {
        assert(a + b =~= a);
        assert(changes_at(a, key) + changes_at(b, key) =~= changes_at(a, key));
    } else {
        lemma_changes_at_add(a, b.drop_last(), key);
        assert((a + b).drop_last() =~= a + b.drop_last());
        assert((a + b).last() == b.last());
        assert(changes_at(a + b, key) =~= changes_at(a, key) + changes_at(b, key));
    }
}

/// Changes about one socket only.
proof fn lemma_changes_at_one(a: Seq<ChangeView>, about: Key, key: Key)
    requires
        forall|i: int| 0 <= i < a.len() ==> (#[trigger] a[i]).key() == about,
    ensures
        changes_at(a, key) == if key == about {
            a
        } else {
            seq![]
        },
    decreases a.len(),
{
    if a.len() > 0 {
        assert(a.last().key() == about);
        lemma_changes_at_one(a.drop_last(), about, key);
        assert(a =~= a.drop_last().push(a.last()));
    } else {
        assert(a =~= seq![]);
    }
}

/// Of ascending keys, the report on a socket among them is the changes
/// about it, and there are none about other sockets.
proof fn lemma_changes_over_at(
    keys: Seq<Key>,
    baseline: SnapshotView,
    current: SnapshotView,
    key: Key,
)
    requires
        diff::ascending(keys),
    ensures
        changes_at(diff::changes_over(keys, baseline, current), key) == if keys.contains(key) {
            report_on(baseline, current, key)
        } else {
            seq![]
        },
    decreases keys.len(),
{
    if keys.len() > 0 {
        let rest = keys.drop_last();
        let last = keys.last();
        assert forall|i: int, j: int| 0 <= i < j < rest.len() implies model::key_before(
            #[trigger] rest[i],
            #[trigger] rest[j],
        ) by {
            assert(model::key_before(keys[i], keys[j]));
        }
        lemma_changes_over_at(rest, baseline, current, key);
        lemma_key_changes_key(baseline, current, last);
        lemma_changes_at_add(
            diff::changes_over(rest, baseline, current),
            report_on(baseline, current, last),
            key,
        );
        lemma_changes_at_one(report_on(baseline, current, last), last, key);
        assert(keys[keys.len() - 1] == last);
        if rest.contains(key) {
            let i = choose|i: int| 0 <= i < rest.len() && rest[i] == key;
            assert(keys[i] == key);
            assert(model::key_before(keys[i], keys[keys.len() - 1]));
            assert(report_on(baseline, current, key) + seq![] =~= report_on(
                baseline,
                current,
                key,
            ));
        } else {
            if keys.contains(key) {
                let i = choose|i: int| 0 <= i < keys.len() && keys[i] == key;
                if i < rest.len() {
                    assert(rest[i] == key);
                }
                assert(key == last);
            }
            assert(seq![] + changes_at(report_on(baseline, current, last), key) =~= changes_at(
                report_on(baseline, current, last),
                key,
            ));
        }
    }
}

/// The changes about a socket are among the changes.
proof fn lemma_changes_at_members(changes: Seq<ChangeView>, key: Key)
    ensures
        forall|i: int|
            0 <= i < changes_at(changes, key).len() ==> changes.contains(
                #[trigger] changes_at(changes, key)[i],
            ),
        forall|i: int|
            0 <= i < changes.len() && (#[trigger] changes[i]).key() == key ==> changes_at(
                changes,
                key,
            ).contains(changes[i]),
    decreases changes.len(),
{
    if changes.len() > 0 {
        let rest = changes.drop_last();
        lemma_changes_at_members(rest, key);
        let r = changes_at(rest, key);
        let a = changes_at(changes, key);
        assert forall|i: int| 0 <= i < a.len() implies changes.contains(#[trigger] a[i]) by {
            if i < r.len() {
                assert(a[i] == r[i]);
                assert(rest.contains(r[i]));
                let k = choose|k: int| 0 <= k < rest.len() && rest[k] == r[i];
                assert(changes[k] == a[i]);
            } else {
                assert(changes[changes.len() - 1] == a[i]);
            }
        }
        assert forall|i: int|
            0 <= i < changes.len() && (#[trigger] changes[i]).key() == key implies a.contains(
            changes[i],
        ) by {
            if i < rest.len() {
                assert(rest[i] == changes[i]);
                assert(r.contains(rest[i]));
                let k = choose|k: int| 0 <= k < r.len() && r[k] == rest[i];
                assert(a[k] == changes[i]);
            } else {
                assert(a[a.len() - 1] == changes[i]);
            }
        }
    }
}

// ---------------------------------------------------------------------
// Laws
// ---------------------------------------------------------------------

/// What a comparison says of a socket depends on the owners of that socket
/// before and after, and on nothing else.
pub proof fn report_is_per_socket(baseline: SnapshotView, current: SnapshotView, key: Key)
    ensures
        changes_at(diff::changes_between(baseline, current), key) == diff::key_changes(
            key,
            diff::owners_at(baseline, key),
            diff::owners_at(current, key),
        ),
{
    diff::lemma_all_keys(baseline, current);
    lemma_changes_over_at(diff::all_keys(baseline, current), baseline, current, key);
    if !diff::all_keys(baseline, current).contains(key) {
        assert(diff::owners_at(baseline, key).len() == 0);
        assert(diff::owners_at(current, key).len() == 0);
        assert(report_on(baseline, current, key) =~= seq![]);
    }
}

/// No change is reported exactly where every socket has the same set of
/// owners in both snapshots.
pub proof fn unchanged_iff_same_owners(baseline: SnapshotView, current: SnapshotView)
    ensures
        diff::changes_between(baseline, current).len() == 0 <==> forall|key: Key|
            same_owners(
                #[trigger] diff::owners_at(baseline, key),
                diff::owners_at(current, key),
            ),
{
    let c = diff::changes_between(baseline, current);
    if c.len() == 0 {
        assert forall|key: Key| same_owners(
            #[trigger] diff::owners_at(baseline, key),
            diff::owners_at(current, key),
        ) by {
            report_is_per_socket(baseline, current, key);
            lemma_key_unchanged(
                key,
                diff::owners_at(baseline, key),
                diff::owners_at(current, key),
            );
        }
    } else if forall|key: Key|
        same_owners(#[trigger] diff::owners_at(baseline, key), diff::owners_at(current, key)) {
        let key = c[0].key();
        report_is_per_socket(baseline, current, key);
        lemma_changes_at_members(c, key);
        assert(changes_at(c, key).contains(c[0]));
        lemma_key_unchanged(key, diff::owners_at(baseline, key), diff::owners_at(current, key));
        assert(same_owners(diff::owners_at(baseline, key), diff::owners_at(current, key)));
    }
}

/// A snapshot compared with one of the same entries shows no change.
pub proof fn identical_is_unchanged(baseline: SnapshotView, current: SnapshotView)
    requires
        baseline.entries == current.entries,
    ensures
        diff::changes_between(baseline, current).len() == 0,
{
    unchanged_iff_same_owners(baseline, current);
    assert forall|key: Key| same_owners(
        #[trigger] diff::owners_at(baseline, key),
        diff::owners_at(current, key),
    ) by {}
}

/// The order in which the operating system enumerates sockets, and how
/// often it names one, never shows up as a change: two snapshots with the
/// same entries, in whatever order, compare as unchanged.
pub proof fn scan_order_is_no_change(baseline: SnapshotView, current: SnapshotView)
    requires
        forall|e: PortEntryView| #[trigger]
            baseline.entries.contains(e) <==> current.entries.contains(e),
    ensures
        diff::changes_between(baseline, current).len() == 0,
{
    unchanged_iff_same_owners(baseline, current);
    assert forall|key: Key| same_owners(
        #[trigger] diff::owners_at(baseline, key),
        diff::owners_at(current, key),
    ) by {
        let a = diff::owners_at(baseline, key);
        let b = diff::owners_at(current, key);
        assert forall|o: Owner| #[trigger] diff::has_owner(a, o) <==> diff::has_owner(b, o) by {
            if diff::has_owner(a, o) {
                lemma_carry(baseline, current, key, o);
            }
            if diff::has_owner(b, o) {
                lemma_carry(current, baseline, key, o);
            }
        }
    }
}

/// An owner of a socket in one snapshot owns it in another that has the
/// same entries.
proof fn lemma_carry(a: SnapshotView, b: SnapshotView, key: Key, o: Owner)
    requires
        forall|e: PortEntryView| #[trigger] a.entries.contains(e) ==> b.entries.contains(e),
        diff::has_owner(diff::owners_at(a, key), o),
    ensures
        diff::has_owner(diff::owners_at(b, key), o),
{
    lemma_owners_at(a, key);
    lemma_owners_at(b, key);
    let p = diff::owners_at(a, key);
    let q = diff::owners_at(b, key);
    let i = choose|i: int| 0 <= i < p.len() && (#[trigger] p[i]).owner() == o;
    assert(a.entries.contains(p[i]));
    assert(b.entries.contains(p[i]));
    let k = choose|k: int| 0 <= k < b.entries.len() && b.entries[k] == p[i];
    assert(q.contains(b.entries[k]));
    let m = choose|m: int| 0 <= m < q.len() && q[m] == p[i];
    assert(q[m].owner() == o);
}

/// Changes come in the order of their sockets: by protocol, then by
/// address, then by port.
pub proof fn changes_are_sorted(baseline: SnapshotView, current: SnapshotView)
    ensures
        forall|i: int, j: int|
            0 <= i <= j < diff::changes_between(baseline, current).len() ==> !model::key_before(
                (#[trigger] diff::changes_between(baseline, current)[j]).key(),
                (#[trigger] diff::changes_between(baseline, current)[i]).key(),
            ),
{
    diff::lemma_all_keys(baseline, current);
    lemma_changes_over_sorted(diff::all_keys(baseline, current), baseline, current);
}

/// The changes over ascending keys are in their order, and about them.
proof fn lemma_changes_over_sorted(
    keys: Seq<Key>,
    baseline: SnapshotView,
    current: SnapshotView,
)
    requires
        diff::ascending(keys),
    ensures
        forall|i: int, j: int|
            0 <= i <= j < diff::changes_over(keys, baseline, current).len() ==> !model::key_before(
                (#[trigger] diff::changes_over(keys, baseline, current)[j]).key(),
                (#[trigger] diff::changes_over(keys, baseline, current)[i]).key(),
            ),
        forall|i: int|
            0 <= i < diff::changes_over(keys, baseline, current).len() ==> keys.contains(
                (#[trigger] diff::changes_over(keys, baseline, current)[i]).key(),
            ),
    decreases keys.len(),
{
    if keys.len() > 0 {
        let rest = keys.drop_last();
        let last = keys.last();
        assert forall|i: int, j: int| 0 <= i < j < rest.len() implies model::key_before(
            #[trigger] rest[i],
            #[trigger] rest[j],
        ) by {
            assert(model::key_before(keys[i], keys[j]));
        }
        lemma_changes_over_sorted(rest, baseline, current);
        lemma_key_changes_key(baseline, current, last);
        let a = diff::changes_over(rest, baseline, current);
        let b = report_on(baseline, current, last);
        let c = diff::changes_over(keys, baseline, current);
        assert(c == a + b);
        assert(keys[keys.len() - 1] == last);
        assert forall|i: int| 0 <= i < a.len() implies keys.contains((#[trigger] a[i]).key())
            && model::key_before(a[i].key(), last) by {
            assert(rest.contains(a[i].key()));
            let m = choose|m: int| 0 <= m < rest.len() && rest[m] == a[i].key();
            assert(keys[m] == a[i].key());
            assert(model::key_before(keys[m], keys[keys.len() - 1]));
        }
        assert forall|i: int, j: int| 0 <= i <= j < c.len() implies !model::key_before(
            (#[trigger] c[j]).key(),
            (#[trigger] c[i]).key(),
        ) by {
            if j < a.len() {
                assert(c[i] == a[i] && c[j] == a[j]);
            } else {
                assert(c[j] == b[j - a.len()]);
                if i < a.len() {
                    assert(c[i] == a[i]);
                } else {
                    assert(c[i] == b[i - a.len()]);
                }
            }
        }
        assert forall|i: int| 0 <= i < c.len() implies keys.contains((#[trigger] c[i]).key()) by {
            if i < a.len() {
                assert(c[i] == a[i]);
            } else {
                assert(c[i] == b[i - a.len()]);
            }
        }
    }
}

/// A socket with one owner before and one after that is not the same - a
/// restarted service under a new pid, or a process in the place of another
/// - is reported as one owner change that names both, however many entries
/// the two owners have there.
pub proof fn handoff_is_one_owner_change(
    baseline: SnapshotView,
    current: SnapshotView,
    key: Key,
)
    requires
        diff::one_owner(diff::owners_at(baseline, key)),
        diff::one_owner(diff::owners_at(current, key)),
        diff::owners_at(baseline, key)[0].owner() != diff::owners_at(current, key)[0].owner(),
    ensures
        changes_at(diff::changes_between(baseline, current), key) == seq![
            ChangeView::OwnerChanged {
                key,
                old_owner: diff::owners_at(baseline, key)[0].owner(),
                new_owner: diff::owners_at(current, key)[0].owner(),
            },
        ],
{
    let a = diff::owners_at(baseline, key);
    let b = diff::owners_at(current, key);
    report_is_per_socket(baseline, current, key);
    lemma_unmatched(a, b);
    if diff::has_owner(b, a[0].owner()) {
        let i = choose|i: int| 0 <= i < b.len() && (#[trigger] b[i]).owner() == a[0].owner();
        assert(b[i].owner() == b[0].owner());
    }
    assert(diff::unmatched(a, b).contains(a[0]));
}

/// An owner change is reported of a socket only where it had one owner
/// before and has another one after.
pub proof fn owner_change_is_a_handoff(baseline: SnapshotView, current: SnapshotView, i: int)
    requires
        0 <= i < diff::changes_between(baseline, current).len(),
        diff::changes_between(baseline, current)[i] is OwnerChanged,
    ensures
        ({
            let change = diff::changes_between(baseline, current)[i];
            let old = diff::owners_at(baseline, change.key());
            let new = diff::owners_at(current, change.key());
            &&& diff::one_owner(old)
            &&& diff::one_owner(new)
            &&& change->old_owner == old[0].owner()
            &&& change->new_owner == new[0].owner()
            &&& change->old_owner != change->new_owner
        }),
{
    let c = diff::changes_between(baseline, current);
    let key = c[i].key();
    let a = diff::owners_at(baseline, key);
    let b = diff::owners_at(current, key);
    report_is_per_socket(baseline, current, key);
    lemma_changes_at_members(c, key);
    let r = diff::key_changes(key, a, b);
    assert(changes_at(c, key).contains(c[i]));
    let k = choose|k: int| 0 <= k < r.len() && r[k] == c[i];
    assert(r[k] is OwnerChanged);
    if !(diff::one_owner(a) && diff::one_owner(b)) {
        let left = diff::unmatched(a, b);
        let joined = diff::unmatched(b, a);
        if k < left.len() {
            assert(r[k] == diff::removals(left)[k]);
        } else {
            assert(r[k] == diff::additions(joined)[k - left.len()]);
        }
    } else if a[0].owner() == b[0].owner() {
        lemma_unmatched(a, b);
        lemma_unmatched(b, a);
        assert(diff::has_owner(b, a[0].owner()));
        assert(diff::has_owner(a, b[0].owner()));
        if diff::unmatched(a, b).len() > 0 {
            assert(a.contains(diff::unmatched(a, b)[0]));
        }
        if diff::unmatched(b, a).len() > 0 {
            assert(b.contains(diff::unmatched(b, a)[0]));
        }
    }
}

/// Where every owner of a socket stays, each process that joins them is
/// reported as an addition, and nothing as an owner change.
pub proof fn joining_only_adds(baseline: SnapshotView, current: SnapshotView, key: Key)
    requires
        forall|o: Owner| #[trigger]
            diff::has_owner(diff::owners_at(baseline, key), o) ==> diff::has_owner(
                diff::owners_at(current, key),
                o,
            ),
    ensures
        changes_at(diff::changes_between(baseline, current), key) == diff::additions(
            diff::unmatched(diff::owners_at(current, key), diff::owners_at(baseline, key)),
        ),
{
    let a = diff::owners_at(baseline, key);
    let b = diff::owners_at(current, key);
    report_is_per_socket(baseline, current, key);
    lemma_all_matched(a, b);
    let joined = diff::unmatched(b, a);
    if diff::one_owner(a) && diff::one_owner(b) {
        lemma_unmatched(b, a);
        assert(diff::has_owner(a, a[0].owner()));
        assert(diff::has_owner(b, a[0].owner()));
        assert(b[0].owner() == a[0].owner());
        if joined.len() > 0 {
            assert(b.contains(joined[0]));
        }
    }
    assert(diff::removals(diff::unmatched(a, b)) + diff::additions(joined) =~= diff::additions(
        joined,
    ));
    assert(diff::key_changes(key, a, b) =~= diff::additions(joined));
}

/// Where nobody joins the owners of a socket, each process that leaves
/// them is reported as a removal, and nothing as an owner change.
pub proof fn leaving_only_removes(baseline: SnapshotView, current: SnapshotView, key: Key)
    requires
        forall|o: Owner| #[trigger]
            diff::has_owner(diff::owners_at(current, key), o) ==> diff::has_owner(
                diff::owners_at(baseline, key),
                o,
            ),
    ensures
        changes_at(diff::changes_between(baseline, current), key) == diff::removals(
            diff::unmatched(diff::owners_at(baseline, key), diff::owners_at(current, key)),
        ),
{
    let a = diff::owners_at(baseline, key);
    let b = diff::owners_at(current, key);
    report_is_per_socket(baseline, current, key);
    lemma_all_matched(b, a);
    let left = diff::unmatched(a, b);
    if diff::one_owner(a) && diff::one_owner(b) {
        lemma_unmatched(a, b);
        assert(diff::has_owner(b, b[0].owner()));
        assert(diff::has_owner(a, b[0].owner()));
        assert(b[0].owner() == a[0].owner());
        if left.len() > 0 {
            assert(a.contains(left[0]));
        }
    }
    assert(diff::removals(left) + diff::additions(diff::unmatched(b, a)) =~= diff::removals(left));
    assert(diff::key_changes(key, a, b) =~= diff::removals(left));
}

/// Entries whose owners all have an entry in another row are all matched
/// there.
proof fn lemma_all_matched(a: Seq<PortEntryView>, b: Seq<PortEntryView>)
    requires
        forall|o: Owner| #[trigger] diff::has_owner(a, o) ==> diff::has_owner(b, o),
    ensures
        diff::unmatched(a, b).len() == 0,
{
    lemma_unmatched(a, b);
    if diff::unmatched(a, b).len() > 0 {
        let x = diff::unmatched(a, b)[0];
        assert(a.contains(x));
        let k = choose|k: int| 0 <= k < a.len() && a[k] == x;
        assert(a[k].owner() == x.owner());
        assert(diff::has_owner(a, x.owner()));
    }
}

/// No new owner of a socket goes unreported, and no owner is reported as
/// new that is not.
pub proof fn every_joining_is_reported(
    baseline: SnapshotView,
    current: SnapshotView,
    key: Key,
    owner: Owner,
)
    ensures
        reports_joined(diff::changes_between(baseline, current), key, owner) <==> (diff::has_owner(
            diff::owners_at(current, key),
            owner,
        ) && !diff::has_owner(diff::owners_at(baseline, key), owner)),
{
    let c = diff::changes_between(baseline, current);
    let a = diff::owners_at(baseline, key);
    let b = diff::owners_at(current, key);
    let left = diff::unmatched(a, b);
    let joined = diff::unmatched(b, a);
    let r = diff::key_changes(key, a, b);
    report_is_per_socket(baseline, current, key);
    lemma_changes_at_members(c, key);
    lemma_unmatched(a, b);
    lemma_unmatched(b, a);
    lemma_owners_at(current, key);
    if reports_joined(c, key, owner) {
        let i = choose|i: int|
            0 <= i < c.len() && match #[trigger] c[i] {
                ChangeView::Added { entry } => entry.key() == key && entry.owner() == owner,
                ChangeView::OwnerChanged { key: k, new_owner, .. } => k == key && new_owner
                    == owner,
                ChangeView::Removed { .. } => false,
            };
        assert(c[i].key() == key);
        assert(changes_at(c, key).contains(c[i]));
        let k = choose|k: int| 0 <= k < r.len() && r[k] == c[i];
        if diff::one_owner(a) && diff::one_owner(b) {
            owner_change_is_a_handoff(baseline, current, i);
            assert(b[0].owner() == owner);
            assert(diff::has_owner(b, owner));
            assert(a[0].owner() != owner);
        } else {
            assert(k >= left.len()) by {
                if k < left.len() {
                    assert(r[k] == diff::removals(left)[k]);
                }
            }
            assert(r[k] == diff::additions(joined)[k - left.len()]);
            let x = joined[k - left.len()];
            assert(b.contains(x));
            let m = choose|m: int| 0 <= m < b.len() && b[m] == x;
            assert(b[m].owner() == owner);
        }
    }
    if diff::has_owner(b, owner) && !diff::has_owner(a, owner) {
        let m = choose|m: int| 0 <= m < b.len() && (#[trigger] b[m]).owner() == owner;
        assert(joined.contains(b[m]));
        let n = choose|n: int| 0 <= n < joined.len() && joined[n] == b[m];
        let k = if diff::one_owner(a) && diff::one_owner(b) {
            0
        } else {
            left.len() + n
        };
        if !(diff::one_owner(a) && diff::one_owner(b)) {
            assert(r[k] == diff::additions(joined)[n]);
        }
        assert(c.contains(changes_at(c, key)[k]));
        let i = choose|i: int| 0 <= i < c.len() && c[i] == r[k];
        assert(match c[i] {
            ChangeView::Added { entry } => entry.key() == key && entry.owner() == owner,
            ChangeView::OwnerChanged { key: k, new_owner, .. } => k == key && new_owner == owner,
            ChangeView::Removed { .. } => false,
        });
    }
}

/// No former owner of a socket goes unreported, and no owner is reported
/// as gone that is not.
pub proof fn every_leaving_is_reported(
    baseline: SnapshotView,
    current: SnapshotView,
    key: Key,
    owner: Owner,
)
    ensures
        reports_left(diff::changes_between(baseline, current), key, owner) <==> (diff::has_owner(
            diff::owners_at(baseline, key),
            owner,
        ) && !diff::has_owner(diff::owners_at(current, key), owner)),
{
    let c = diff::changes_between(baseline, current);
    let a = diff::owners_at(baseline, key);
    let b = diff::owners_at(current, key);
    let left = diff::unmatched(a, b);
    let joined = diff::unmatched(b, a);
    let r = diff::key_changes(key, a, b);
    report_is_per_socket(baseline, current, key);
    lemma_changes_at_members(c, key);
    lemma_unmatched(a, b);
    lemma_unmatched(b, a);
    lemma_owners_at(baseline, key);
    if reports_left(c, key, owner) {
        let i = choose|i: int|
            0 <= i < c.len() && match #[trigger] c[i] {
                ChangeView::Removed { entry } => entry.key() == key && entry.owner() == owner,
                ChangeView::OwnerChanged { key: k, old_owner, .. } => k == key && old_owner
                    == owner,
                ChangeView::Added { .. } => false,
            };
        assert(c[i].key() == key);
        assert(changes_at(c, key).contains(c[i]));
        let k = choose|k: int| 0 <= k < r.len() && r[k] == c[i];
        if diff::one_owner(a) && diff::one_owner(b) {
            owner_change_is_a_handoff(baseline, current, i);
            assert(a[0].owner() == owner);
            assert(diff::has_owner(a, owner));
            assert(b[0].owner() != owner);
        } else {
            assert(k < left.len()) by {
                if k >= left.len() {
                    assert(r[k] == diff::additions(joined)[k - left.len()]);
                }
            }
            assert(r[k] == diff::removals(left)[k]);
            let x = left[k];
            assert(a.contains(x));
            let m = choose|m: int| 0 <= m < a.len() && a[m] == x;
            assert(a[m].owner() == owner);
        }
    }
    if diff::has_owner(a, owner) && !diff::has_owner(b, owner) {
        let m = choose|m: int| 0 <= m < a.len() && (#[trigger] a[m]).owner() == owner;
        assert(left.contains(a[m]));
        let n = choose|n: int| 0 <= n < left.len() && left[n] == a[m];
        let k = if diff::one_owner(a) && diff::one_owner(b) {
            0
        } else {
            n
        };
        if !(diff::one_owner(a) && diff::one_owner(b)) {
            assert(r[k] == diff::removals(left)[n]);
        }
        assert(c.contains(changes_at(c, key)[k]));
        let i = choose|i: int| 0 <= i < c.len() && c[i] == r[k];
        assert(match c[i] {
            ChangeView::Removed { entry } => entry.key() == key && entry.owner() == owner,
            ChangeView::OwnerChanged { key: k, old_owner, .. } => k == key && old_owner == owner,
            ChangeView::Added { .. } => false,
        });
    }
}

/// Sockets that do not listen play no part: a comparison is that of the
/// listening entries alone.
pub proof fn only_listening_counts(baseline: SnapshotView, current: SnapshotView)
    ensures
        diff::changes_between(baseline, current) == diff::changes_between(
            SnapshotView { entries: diff::listening(baseline.entries), ..baseline },
            SnapshotView { entries: diff::listening(current.entries), ..current },
        ),
{
    let a = SnapshotView { entries: diff::listening(baseline.entries), ..baseline };
    let b = SnapshotView { entries: diff::listening(current.entries), ..current };
    lemma_listening_twice(baseline.entries);
    lemma_listening_twice(current.entries);
    lemma_same_reports(
        diff::all_keys(baseline, current),
        baseline,
        current,
        a,
        b,
    );
}

/// What listens among the listening entries is all of them.
proof fn lemma_listening_twice(entries: Seq<PortEntryView>)
    ensures
        diff::listening(diff::listening(entries)) == diff::listening(entries),
    decreases entries.len(),
{
    if entries.len() > 0 {
        let rest = entries.drop_last();
        lemma_listening_twice(rest);
        if entries.last().listening() {
            let l = diff::listening(entries);
            assert(l.drop_last() =~= diff::listening(rest));
        }
    }
}

/// Snapshots with the same owners at every key give the same changes.
proof fn lemma_same_reports(
    keys: Seq<Key>,
    baseline: SnapshotView,
    current: SnapshotView,
    baseline2: SnapshotView,
    current2: SnapshotView,
)
    requires
        forall|key: Key| #[trigger]
            diff::owners_at(baseline, key) == diff::owners_at(baseline2, key),
        forall|key: Key| #[trigger]
            diff::owners_at(current, key) == diff::owners_at(current2, key),
    ensures
        diff::changes_over(keys, baseline, current) == diff::changes_over(
            keys,
            baseline2,
            current2,
        ),
    decreases keys.len(),
{
    if keys.len() > 0 {
        lemma_same_reports(keys.drop_last(), baseline, current, baseline2, current2);
        assert(diff::owners_at(baseline, keys.last()) == diff::owners_at(baseline2, keys.last()));
        assert(diff::owners_at(current, keys.last()) == diff::owners_at(current2, keys.last()));
    }
}

/// Putting the entries of a snapshot in order, as `Snapshot::new` does,
/// changes nothing in a comparison on either side.
pub proof fn sorting_is_no_change(
    sorted: SnapshotView,
    given: SnapshotView,
    other: SnapshotView,
)
    requires
        model::is_sort_of(sorted.entries, given.entries),
    ensures
        diff::changes_between(sorted, other) == diff::changes_between(given, other),
        diff::changes_between(other, sorted) == diff::changes_between(other, given),
        diff::changes_between(given, sorted).len() == 0,
{
    assert forall|key: Key| #[trigger]
        diff::owners_at(sorted, key) == diff::owners_at(given, key) by {
        lemma_listening_at(sorted.entries, key);
        lemma_listening_at(given.entries, key);
        assert(model::at_key(sorted.entries, key) == model::at_key(given.entries, key));
    }
    lemma_same_keys(sorted, other, given, other);
    lemma_same_keys(other, sorted, other, given);
    lemma_same_reports(diff::all_keys(sorted, other), sorted, other, given, other);
    lemma_same_reports(diff::all_keys(other, sorted), other, sorted, other, given);
    unchanged_iff_same_owners(given, sorted);
    assert forall|key: Key| same_owners(
        #[trigger] diff::owners_at(given, key),
        diff::owners_at(sorted, key),
    ) by {
        assert(diff::owners_at(sorted, key) == diff::owners_at(given, key));
    }
}

/// The listening entries at a key are what listens of those at the key.
proof fn lemma_listening_at(entries: Seq<PortEntryView>, key: Key)
    ensures
        model::at_key(diff::listening(entries), key) == diff::listening(
            model::at_key(entries, key),
        ),
    decreases entries.len(),
{
    if entries.len() > 0 {
        let rest = entries.drop_last();
        lemma_listening_at(rest, key);
        let e = entries.last();
        if e.listening() {
            assert(diff::listening(entries).drop_last() =~= diff::listening(rest));
        }
        if e.key() == key {
            assert(model::at_key(entries, key).drop_last() =~= model::at_key(rest, key));
        }
    }
}

/// Snapshots with the same owners at every key have the same keys.
proof fn lemma_same_keys(
    baseline: SnapshotView,
    current: SnapshotView,
    baseline2: SnapshotView,
    current2: SnapshotView,
)
    requires
        forall|key: Key| #[trigger]
            diff::owners_at(baseline, key) == diff::owners_at(baseline2, key),
        forall|key: Key| #[trigger]
            diff::owners_at(current, key) == diff::owners_at(current2, key),
    ensures
        diff::all_keys(baseline, current) == diff::all_keys(baseline2, current2),
{
    diff::lemma_all_keys(baseline, current);
    diff::lemma_all_keys(baseline2, current2);
    let p = diff::all_keys(baseline, current);
    let q = diff::all_keys(baseline2, current2);
    assert forall|k: Key| #[trigger] p.contains(k) <==> q.contains(k) by {
        assert(diff::owners_at(baseline, k) == diff::owners_at(baseline2, k));
        assert(diff::owners_at(current, k) == diff::owners_at(current2, k));
    }
    diff::lemma_ascending_unique(p, q);
}

/// Every change is an addition, a removal or an owner change, so the three
/// counts add up to the number of changes.
pub proof fn counts_add_up(changes: Seq<ChangeView>)
    ensures
        diff::added_in(changes) + diff::removed_in(changes) + diff::owner_changed_in(changes)
            == changes.len(),
    decreases changes.len(),
{
    if changes.len() > 0 {
        counts_add_up(changes.drop_last());
    }
}

/// Compared the other way round, what was added is removed and what was
/// removed is added, and as many sockets changed their owner.
pub proof fn reversing_swaps_counts(baseline: SnapshotView, current: SnapshotView)
    ensures
        diff::added_in(diff::changes_between(current, baseline)) == diff::removed_in(
            diff::changes_between(baseline, current),
        ),
        diff::removed_in(diff::changes_between(current, baseline)) == diff::added_in(
            diff::changes_between(baseline, current),
        ),
        diff::owner_changed_in(diff::changes_between(current, baseline)) == diff::owner_changed_in(
            diff::changes_between(baseline, current),
        ),
{
    diff::lemma_all_keys(baseline, current);
    diff::lemma_all_keys(current, baseline);
    let p = diff::all_keys(baseline, current);
    let q = diff::all_keys(current, baseline);
    assert forall|k: Key| #[trigger] p.contains(k) <==> q.contains(k) by {}
    diff::lemma_ascending_unique(p, q);
    lemma_reversed_over(p, baseline, current);
}

/// The counts over the same keys, the other way round.
proof fn lemma_reversed_over(keys: Seq<Key>, baseline: SnapshotView, current: SnapshotView)
    ensures
        diff::added_in(diff::changes_over(keys, current, baseline)) == diff::removed_in(
            diff::changes_over(keys, baseline, current),
        ),
        diff::removed_in(diff::changes_over(keys, current, baseline)) == diff::added_in(
            diff::changes_over(keys, baseline, current),
        ),
        diff::owner_changed_in(diff::changes_over(keys, current, baseline))
            == diff::owner_changed_in(diff::changes_over(keys, baseline, current)),
    decreases keys.len(),
{
    if keys.len() > 0 {
        let key = keys.last();
        let rest = keys.drop_last();
        lemma_reversed_over(rest, baseline, current);
        lemma_counts_add(
            diff::changes_over(rest, baseline, current),
            report_on(baseline, current, key),
        );
        lemma_counts_add(
            diff::changes_over(rest, current, baseline),
            report_on(current, baseline, key),
        );
        let a = diff::owners_at(baseline, key);
        let b = diff::owners_at(current, key);
        let left = diff::unmatched(a, b);
        let joined = diff::unmatched(b, a);
        if left.len() == 0 && joined.len() == 0 {
        } else if diff::one_owner(a) && diff::one_owner(b) {
            reveal_with_fuel(diff::added_in, 2);
            reveal_with_fuel(diff::removed_in, 2);
            reveal_with_fuel(diff::owner_changed_in, 2);
        } else {
            lemma_counts_add(diff::removals(left), diff::additions(joined));
            lemma_counts_add(diff::removals(joined), diff::additions(left));
            lemma_counts_of(left);
            lemma_counts_of(joined);
        }
    }
}

/// The counts of changes after one another are the sums.
proof fn lemma_counts_add(a: Seq<ChangeView>, b: Seq<ChangeView>)
    ensures
        diff::added_in(a + b) == diff::added_in(a) + diff::added_in(b),
        diff::removed_in(a + b) == diff::removed_in(a) + diff::removed_in(b),
        diff::owner_changed_in(a + b) == diff::owner_changed_in(a) + diff::owner_changed_in(b),
    decreases b.len(),
{
    if b.len() == 0 {
        assert(a + b =~= a);
    } else {
        lemma_counts_add(a, b.drop_last());
        assert((a + b).drop_last() =~= a + b.drop_last());
        assert((a + b).last() == b.last());
    }
}

/// The counts of additions and removals of the same entries.
proof fn lemma_counts_of(entries: Seq<PortEntryView>)
    ensures
        diff::added_in(diff::additions(entries)) == entries.len(),
        diff::removed_in(diff::additions(entries)) == 0,
        diff::owner_changed_in(diff::additions(entries)) == 0,
        diff::removed_in(diff::removals(entries)) == entries.len(),
        diff::added_in(diff::removals(entries)) == 0,
        diff::owner_changed_in(diff::removals(entries)) == 0,
    decreases entries.len(),
{
    if entries.len() > 0 {
        let rest = entries.drop_last();
        lemma_counts_of(rest);
        assert(diff::additions(entries).drop_last() =~= diff::additions(rest));
        assert(diff::removals(entries).drop_last() =~= diff::removals(rest));
    }
}

// ---------------------------------------------------------------------
// Laws of whole reports
// ---------------------------------------------------------------------

/// Whether the entries are the same, each as often, in whatever order.
pub open spec fn is_permutation(a: Seq<PortEntryView>, b: Seq<PortEntryView>) -> bool {
    a.to_multiset() == b.to_multiset()
}

/// The sockets that the changes are about, one for each change.
pub open spec fn change_keys(changes: Seq<ChangeView>) -> Seq<Key> {
    changes.map_values(|c: ChangeView| c.key())
}

/// How often an entry occurs among those at a key that listen: as often as
/// among all entries, if it is one of those.
proof fn lemma_count_owners(s: SnapshotView, key: Key, e: PortEntryView)
    ensures
        diff::owners_at(s, key).to_multiset().count(e) == if e.listening() && e.key() == key {
            s.entries.to_multiset().count(e)
        } else {
            0
        },
{
    lemma_count_listening(s.entries, e);
    lemma_count_at_key(diff::listening(s.entries), key, e);
}

/// How often an entry occurs among those that listen.
proof fn lemma_count_listening(entries: Seq<PortEntryView>, e: PortEntryView)
    ensures
        diff::listening(entries).to_multiset().count(e) == if e.listening() {
            entries.to_multiset().count(e)
        } else {
            0
        },
    decreases entries.len(),
{
    if entries.len() == 0 {
        assert(diff::listening(entries) =~= entries);
        entries.to_multiset_ensures();
    } else {
        let rest = entries.drop_last();
        lemma_count_listening(rest, e);
        rest.to_multiset_ensures();
        diff::listening(rest).to_multiset_ensures();
        assert(entries =~= rest.push(entries.last()));
    }
}

/// How often an entry occurs among those at a key.
proof fn lemma_count_at_key(entries: Seq<PortEntryView>, key: Key, e: PortEntryView)
    ensures
        model::at_key(entries, key).to_multiset().count(e) == if e.key() == key {
            entries.to_multiset().count(e)
        } else {
            0
        },
    decreases entries.len(),
{
    if entries.len() == 0 {
        assert(model::at_key(entries, key) =~= entries);
        entries.to_multiset_ensures();
    } else {
        let rest = entries.drop_last();
        lemma_count_at_key(rest, key, e);
        rest.to_multiset_ensures();
        model::at_key(rest, key).to_multiset_ensures();
        assert(entries =~= rest.push(entries.last()));
    }
}

/// How often an entry occurs among the unmatched.
proof fn lemma_count_unmatched(a: Seq<PortEntryView>, b: Seq<PortEntryView>, e: PortEntryView)
    ensures
        diff::unmatched(a, b).to_multiset().count(e) == if diff::has_owner(b, e.owner()) {
            0
        } else {
            a.to_multiset().count(e)
        },
    decreases a.len(),
{
    if a.len() == 0 {
        assert(diff::unmatched(a, b) =~= a);
        a.to_multiset_ensures();
    } else {
        let rest = a.drop_last();
        lemma_count_unmatched(rest, b, e);
        rest.to_multiset_ensures();
        diff::unmatched(rest, b).to_multiset_ensures();
        assert(a =~= rest.push(a.last()));
    }
}

/// Rearranged entries have the same owners.
proof fn lemma_permuted_owner(a: Seq<PortEntryView>, b: Seq<PortEntryView>, o: Owner)
    requires
        is_permutation(a, b),
    ensures
        diff::has_owner(a, o) <==> diff::has_owner(b, o),
{
    a.to_multiset_ensures();
    b.to_multiset_ensures();
    if diff::has_owner(a, o) {
        let i = choose|i: int| 0 <= i < a.len() && (#[trigger] a[i]).owner() == o;
        assert(a.contains(a[i]));
        assert(a.to_multiset().count(a[i]) > 0);
        assert(b.contains(a[i]));
        let k = choose|k: int| 0 <= k < b.len() && b[k] == a[i];
        assert(b[k].owner() == o);
    }
    if diff::has_owner(b, o) {
        let i = choose|i: int| 0 <= i < b.len() && (#[trigger] b[i]).owner() == o;
        assert(b.contains(b[i]));
        assert(b.to_multiset().count(b[i]) > 0);
        assert(a.contains(b[i]));
        let k = choose|k: int| 0 <= k < a.len() && a[k] == b[i];
        assert(a[k].owner() == o);
    }
}

/// Rearranged entries have one owner where the others have, and it is the
/// same.
proof fn lemma_permuted_one_owner(a: Seq<PortEntryView>, b: Seq<PortEntryView>)
    requires
        is_permutation(a, b),
        diff::one_owner(a),
    ensures
        diff::one_owner(b),
        b[0].owner() == a[0].owner(),
{
    a.to_multiset_ensures();
    b.to_multiset_ensures();
    assert forall|i: int| 0 <= i < b.len() implies (#[trigger] b[i]).owner() == a[0].owner() by {
        assert(b.contains(b[i]));
        assert(b.to_multiset().count(b[i]) > 0);
        assert(a.contains(b[i]));
        let k = choose|k: int| 0 <= k < a.len() && a[k] == b[i];
        assert(a[k].owner() == a[0].owner());
    }
    assert(b.len() > 0);
    assert(b[0].owner() == a[0].owner());
}

/// Rearranged entries matched against rearranged entries leave the same
/// ones, rearranged.
proof fn lemma_permuted_unmatched(
    a: Seq<PortEntryView>,
    b: Seq<PortEntryView>,
    a2: Seq<PortEntryView>,
    b2: Seq<PortEntryView>,
)
    requires
        is_permutation(a, a2),
        is_permutation(b, b2),
    ensures
        is_permutation(diff::unmatched(a, b), diff::unmatched(a2, b2)),
        diff::unmatched(a, b).len() == diff::unmatched(a2, b2).len(),
{
    let u = diff::unmatched(a, b);
    let v = diff::unmatched(a2, b2);
    assert forall|e: PortEntryView| #[trigger]
        u.to_multiset().count(e) == v.to_multiset().count(e) by {
        lemma_count_unmatched(a, b, e);
        lemma_count_unmatched(a2, b2, e);
        lemma_permuted_owner(b, b2, e.owner());
    }
    assert(u.to_multiset() =~= v.to_multiset());
    u.to_multiset_ensures();
    v.to_multiset_ensures();
}

/// How often a change occurs among removals of entries.
proof fn lemma_count_removals(entries: Seq<PortEntryView>, c: ChangeView)
    ensures
        diff::removals(entries).to_multiset().count(c) == match c {
            ChangeView::Removed { entry } => entries.to_multiset().count(entry),
            _ => 0,
        },
    decreases entries.len(),
{
    let r = diff::removals(entries);
    if entries.len() == 0 {
        entries.to_multiset_ensures();
        r.to_multiset_ensures();
    } else {
        let rest = entries.drop_last();
        lemma_count_removals(rest, c);
        rest.to_multiset_ensures();
        diff::removals(rest).to_multiset_ensures();
        assert(entries =~= rest.push(entries.last()));
        assert(r =~= diff::removals(rest).push(ChangeView::Removed { entry: entries.last() }));
    }
}

/// How often a change occurs among additions of entries.
proof fn lemma_count_additions(entries: Seq<PortEntryView>, c: ChangeView)
    ensures
        diff::additions(entries).to_multiset().count(c) == match c {
            ChangeView::Added { entry } => entries.to_multiset().count(entry),
            _ => 0,
        },
    decreases entries.len(),
{
    let r = diff::additions(entries);
    if entries.len() == 0 {
        entries.to_multiset_ensures();
        r.to_multiset_ensures();
    } else {
        let rest = entries.drop_last();
        lemma_count_additions(rest, c);
        rest.to_multiset_ensures();
        diff::additions(rest).to_multiset_ensures();
        assert(entries =~= rest.push(entries.last()));
        assert(r =~= diff::additions(rest).push(ChangeView::Added { entry: entries.last() }));
    }
}

/// What is reported of one socket whose entries were rearranged is the same,
/// rearranged.
proof fn lemma_permuted_key_changes(
    key: Key,
    a: Seq<PortEntryView>,
    b: Seq<PortEntryView>,
    a2: Seq<PortEntryView>,
    b2: Seq<PortEntryView>,
)
    requires
        is_permutation(a, a2),
        is_permutation(b, b2),
    ensures
        diff::key_changes(key, a, b).to_multiset() == diff::key_changes(key, a2, b2).to_multiset(),
        diff::key_changes(key, a, b).len() == diff::key_changes(key, a2, b2).len(),
{
    let left = diff::unmatched(a, b);
    let joined = diff::unmatched(b, a);
    let left2 = diff::unmatched(a2, b2);
    let joined2 = diff::unmatched(b2, a2);
    lemma_permuted_unmatched(a, b, a2, b2);
    lemma_permuted_unmatched(b, a, b2, a2);
    if left.len() == 0 && joined.len() == 0 {
    } else if diff::one_owner(a) && diff::one_owner(b) {
        lemma_permuted_one_owner(a, a2);
        lemma_permuted_one_owner(b, b2);
    } else {
        if diff::one_owner(a2) && diff::one_owner(b2) {
            lemma_permuted_one_owner(a2, a);
            lemma_permuted_one_owner(b2, b);
        }
        lemma_multiset_commutative(diff::removals(left), diff::additions(joined));
        lemma_multiset_commutative(diff::removals(left2), diff::additions(joined2));
        assert forall|c: ChangeView| #[trigger]
            diff::key_changes(key, a, b).to_multiset().count(c) == diff::key_changes(
                key,
                a2,
                b2,
            ).to_multiset().count(c) by {
            lemma_count_removals(left, c);
            lemma_count_removals(left2, c);
            lemma_count_additions(joined, c);
            lemma_count_additions(joined2, c);
        }
        assert(diff::key_changes(key, a, b).to_multiset() =~= diff::key_changes(
            key,
            a2,
            b2,
        ).to_multiset());
    }
}

/// Snapshots whose entries were rearranged have rearranged owners at every
/// key.
proof fn lemma_permuted_owners(a: SnapshotView, b: SnapshotView, key: Key)
    requires
        is_permutation(a.entries, b.entries),
    ensures
        is_permutation(diff::owners_at(a, key), diff::owners_at(b, key)),
        diff::owners_at(a, key).len() == diff::owners_at(b, key).len(),
{
    let p = diff::owners_at(a, key);
    let q = diff::owners_at(b, key);
    assert forall|e: PortEntryView| #[trigger]
        p.to_multiset().count(e) == q.to_multiset().count(e) by {
        lemma_count_owners(a, key, e);
        lemma_count_owners(b, key, e);
    }
    assert(p.to_multiset() =~= q.to_multiset());
    p.to_multiset_ensures();
    q.to_multiset_ensures();
}

/// Changes about one key and as many of them have the same row of keys.
proof fn lemma_same_change_keys(a: Seq<ChangeView>, b: Seq<ChangeView>, key: Key)
    requires
        a.len() == b.len(),
        forall|i: int| 0 <= i < a.len() ==> (#[trigger] a[i]).key() == key,
        forall|i: int| 0 <= i < b.len() ==> (#[trigger] b[i]).key() == key,
    ensures
        change_keys(a) == change_keys(b),
{
    assert(change_keys(a) =~= change_keys(b));
}

/// The changes over the same keys, of rearranged entries.
proof fn lemma_permuted_over(
    keys: Seq<Key>,
    baseline: SnapshotView,
    current: SnapshotView,
    baseline2: SnapshotView,
    current2: SnapshotView,
)
    requires
        is_permutation(baseline.entries, baseline2.entries),
        is_permutation(current.entries, current2.entries),
    ensures
        diff::changes_over(keys, baseline, current).to_multiset() == diff::changes_over(
            keys,
            baseline2,
            current2,
        ).to_multiset(),
        change_keys(diff::changes_over(keys, baseline, current)) == change_keys(
            diff::changes_over(keys, baseline2, current2),
        ),
    decreases keys.len(),
{
    if keys.len() > 0 {
        let rest = keys.drop_last();
        let key = keys.last();
        let x = diff::changes_over(rest, baseline, current);
        let x2 = diff::changes_over(rest, baseline2, current2);
        let y = report_on(baseline, current, key);
        let y2 = report_on(baseline2, current2, key);
        lemma_permuted_over(rest, baseline, current, baseline2, current2);
        lemma_permuted_owners(baseline, baseline2, key);
        lemma_permuted_owners(current, current2, key);
        lemma_permuted_key_changes(
            key,
            diff::owners_at(baseline, key),
            diff::owners_at(current, key),
            diff::owners_at(baseline2, key),
            diff::owners_at(current2, key),
        );
        lemma_multiset_commutative(x, y);
        lemma_multiset_commutative(x2, y2);
        lemma_key_changes_key(baseline, current, key);
        lemma_key_changes_key(baseline2, current2, key);
        lemma_same_change_keys(y, y2, key);
        assert(change_keys(x + y) =~= change_keys(x) + change_keys(y));
        assert(change_keys(x2 + y2) =~= change_keys(x2) + change_keys(y2));
    }
}

/// The order in which the operating system enumerates sockets plays no part
/// in what is reported: with the entries of both snapshots in another order
/// the changes are the same ones, about the same sockets in the same order.
/// Only the changes of one socket may come in another order among
/// themselves, and they do not where no socket has two listening entries.
pub proof fn scan_order_only_permutes(
    baseline: SnapshotView,
    current: SnapshotView,
    baseline2: SnapshotView,
    current2: SnapshotView,
)
    requires
        is_permutation(baseline.entries, baseline2.entries),
        is_permutation(current.entries, current2.entries),
    ensures
        diff::changes_between(baseline, current).to_multiset() == diff::changes_between(
            baseline2,
            current2,
        ).to_multiset(),
        change_keys(diff::changes_between(baseline, current)) == change_keys(
            diff::changes_between(baseline2, current2),
        ),
        (forall|key: Key| #[trigger]
            diff::owners_at(baseline, key).len() <= 1 && diff::owners_at(current, key).len() <= 1)
            ==> diff::changes_between(baseline, current) == diff::changes_between(
            baseline2,
            current2,
        ),
{
    diff::lemma_all_keys(baseline, current);
    diff::lemma_all_keys(baseline2, current2);
    let p = diff::all_keys(baseline, current);
    let q = diff::all_keys(baseline2, current2);
    assert forall|k: Key| #[trigger] p.contains(k) <==> q.contains(k) by {
        lemma_permuted_owners(baseline, baseline2, k);
        lemma_permuted_owners(current, current2, k);
    }
    diff::lemma_ascending_unique(p, q);
    lemma_permuted_over(p, baseline, current, baseline2, current2);
    if forall|key: Key| #[trigger]
        diff::owners_at(baseline, key).len() <= 1 && diff::owners_at(current, key).len() <= 1 {
        assert forall|key: Key| #[trigger]
            diff::owners_at(baseline, key) == diff::owners_at(baseline2, key) by {
            lemma_permuted_owners(baseline, baseline2, key);
            assert(diff::owners_at(baseline, key).len() <= 1);
            lemma_permuted_short(diff::owners_at(baseline, key), diff::owners_at(baseline2, key));
        }
        assert forall|key: Key| #[trigger]
            diff::owners_at(current, key) == diff::owners_at(current2, key) by {
            lemma_permuted_owners(current, current2, key);
            assert(diff::owners_at(baseline, key).len() <= 1);
            lemma_permuted_short(diff::owners_at(current, key), diff::owners_at(current2, key));
        }
        lemma_same_reports(p, baseline, current, baseline2, current2);
    }
}

/// One entry at most cannot be rearranged.
proof fn lemma_permuted_short(a: Seq<PortEntryView>, b: Seq<PortEntryView>)
    requires
        is_permutation(a, b),
        a.len() <= 1,
    ensures
        a == b,
{
    a.to_multiset_ensures();
    b.to_multiset_ensures();
    if a.len() == 1 {
        assert(a.contains(a[0]));
        assert(a.to_multiset().count(a[0]) > 0);
        assert(b.contains(a[0]));
    }
    assert(a =~= b);
}

/// The change seen the other way round: what was added is removed, what was
/// removed is added, and a new owner is the former one.
pub open spec fn reversed(c: ChangeView) -> ChangeView {
    match c {
        ChangeView::Added { entry } => ChangeView::Removed { entry },
        ChangeView::Removed { entry } => ChangeView::Added { entry },
        ChangeView::OwnerChanged { key, old_owner, new_owner } => ChangeView::OwnerChanged {
            key,
            old_owner: new_owner,
            new_owner: old_owner,
        },
    }
}

/// The changes seen the other way round.
pub open spec fn all_reversed(changes: Seq<ChangeView>) -> Seq<ChangeView> {
    changes.map_values(|c: ChangeView| reversed(c))
}

/// What is reported of one socket the other way round.
proof fn lemma_reversed_key_changes(key: Key, a: Seq<PortEntryView>, b: Seq<PortEntryView>)
    ensures
        diff::key_changes(key, b, a).to_multiset() == all_reversed(
            diff::key_changes(key, a, b),
        ).to_multiset(),
        diff::key_changes(key, b, a).len() == diff::key_changes(key, a, b).len(),
{
    let left = diff::unmatched(a, b);
    let joined = diff::unmatched(b, a);
    let there = diff::key_changes(key, a, b);
    let back = diff::key_changes(key, b, a);
    if (left.len() == 0 && joined.len() == 0) || (diff::one_owner(a) && diff::one_owner(b)) {
        assert(back =~= all_reversed(there));
    } else {
        assert(all_reversed(there) =~= diff::additions(left) + diff::removals(joined));
        lemma_multiset_commutative(diff::additions(left), diff::removals(joined));
        lemma_multiset_commutative(diff::removals(joined), diff::additions(left));
        assert(back.to_multiset() =~= all_reversed(there).to_multiset());
    }
}

/// The changes over the same keys, the other way round.
proof fn lemma_reversed_changes(keys: Seq<Key>, baseline: SnapshotView, current: SnapshotView)
    ensures
        diff::changes_over(keys, current, baseline).to_multiset() == all_reversed(
            diff::changes_over(keys, baseline, current),
        ).to_multiset(),
        change_keys(diff::changes_over(keys, current, baseline)) == change_keys(
            diff::changes_over(keys, baseline, current),
        ),
    decreases keys.len(),
{
    if keys.len() == 0 {
        assert(all_reversed(diff::changes_over(keys, baseline, current)) =~= diff::changes_over(
            keys,
            current,
            baseline,
        ));
    } else {
        let rest = keys.drop_last();
        let key = keys.last();
        let x = diff::changes_over(rest, baseline, current);
        let x2 = diff::changes_over(rest, current, baseline);
        let y = report_on(baseline, current, key);
        let y2 = report_on(current, baseline, key);
        lemma_reversed_changes(rest, baseline, current);
        lemma_reversed_key_changes(
            key,
            diff::owners_at(baseline, key),
            diff::owners_at(current, key),
        );
        assert(all_reversed(x + y) =~= all_reversed(x) + all_reversed(y));
        lemma_multiset_commutative(all_reversed(x), all_reversed(y));
        lemma_multiset_commutative(x2, y2);
        lemma_key_changes_key(baseline, current, key);
        lemma_key_changes_key(current, baseline, key);
        lemma_same_change_keys(y2, y, key);
        assert(change_keys(x + y) =~= change_keys(x) + change_keys(y));
        assert(change_keys(x2 + y2) =~= change_keys(x2) + change_keys(y2));
    }
}

/// Compared the other way round, the changes are the same ones seen the
/// other way round, about the same sockets in the same order.
pub proof fn reversing_reverses_changes(baseline: SnapshotView, current: SnapshotView)
    ensures
        diff::changes_between(current, baseline).to_multiset() == all_reversed(
            diff::changes_between(baseline, current),
        ).to_multiset(),
        change_keys(diff::changes_between(current, baseline)) == change_keys(
            diff::changes_between(baseline, current),
        ),
{
    diff::lemma_all_keys(baseline, current);
    diff::lemma_all_keys(current, baseline);
    let p = diff::all_keys(baseline, current);
    let q = diff::all_keys(current, baseline);
    assert forall|k: Key| #[trigger] p.contains(k) <==> q.contains(k) by {}
    diff::lemma_ascending_unique(p, q);
    lemma_reversed_changes(p, baseline, current);
}

/// The identity of a socket says nothing of who holds it: entries that
/// differ in their owner only have the same key and listen alike.
pub proof fn identity_ignores_owner(a: PortEntryView, b: PortEntryView)
    requires
        a == (PortEntryView { pid: a.pid, process_name: a.process_name, ..b }),
    ensures
        a.key() == b.key(),
        a.listening() == b.listening(),
{
}

// ---------------------------------------------------------------------
// What a report says, in terms of the entries of the two snapshots
// ---------------------------------------------------------------------

/// Whether the entry is a listener at this protocol, address and port.
pub open spec fn listens_at(e: PortEntryView, p: Protocol, a: IpAddr, port: u16) -> bool {
    &&& e.protocol == p
    &&& e.local_addr == a
    &&& e.local_port == port
    &&& (p is Udp || e.state == Some(TcpState::Listen))
}

/// Whether a process with this pid and name listens there.
pub open spec fn held_by(
    entries: Seq<PortEntryView>,
    p: Protocol,
    a: IpAddr,
    port: u16,
    pid: Option<u32>,
    name: Option<Seq<char>>,
) -> bool {
    exists|i: int|
        0 <= i < entries.len() && listens_at(#[trigger] entries[i], p, a, port) && entries[i].pid
            == pid && entries[i].process_name == name
}

/// Whether a process with this pid and name, and no other, listens there.
pub open spec fn held_only_by(
    entries: Seq<PortEntryView>,
    p: Protocol,
    a: IpAddr,
    port: u16,
    pid: Option<u32>,
    name: Option<Seq<char>>,
) -> bool {
    &&& held_by(entries, p, a, port, pid, name)
    &&& forall|i: int|
        0 <= i < entries.len() && listens_at(#[trigger] entries[i], p, a, port) ==> entries[i].pid
            == pid && entries[i].process_name == name
}

/// Whether the change is about this protocol, address and port.
pub open spec fn is_about(c: ChangeView, p: Protocol, a: IpAddr, port: u16) -> bool {
    match c {
        ChangeView::Added { entry } => entry.protocol == p && entry.local_addr == a
            && entry.local_port == port,
        ChangeView::Removed { entry } => entry.protocol == p && entry.local_addr == a
            && entry.local_port == port,
        ChangeView::OwnerChanged { key, .. } => key == (p, a, port),
    }
}

/// The changes about this protocol, address and port, in order.
pub open spec fn reported_of(
    changes: Seq<ChangeView>,
    p: Protocol,
    a: IpAddr,
    port: u16,
) -> Seq<ChangeView> {
    changes.filter(|c: ChangeView| is_about(c, p, a, port))
}

/// The listeners at this protocol, address and port whose process does not
/// listen there among the others, in order.
pub open spec fn not_among(
    entries: Seq<PortEntryView>,
    others: Seq<PortEntryView>,
    p: Protocol,
    a: IpAddr,
    port: u16,
) -> Seq<PortEntryView> {
    entries.filter(
        |e: PortEntryView|
            listens_at(e, p, a, port) && !held_by(others, p, a, port, e.pid, e.process_name),
    )
}

/// The key of a change is made of the fields of what it is about.
pub proof fn change_is_about_its_entry(c: ChangeView, p: Protocol, a: IpAddr, port: u16)
    ensures
        c.key() == (p, a, port) <==> is_about(c, p, a, port),
{
}

/// The changes about a key are those about its protocol, address and port.
proof fn lemma_reported_of(changes: Seq<ChangeView>, p: Protocol, a: IpAddr, port: u16)
    ensures
        reported_of(changes, p, a, port) == changes_at(changes, (p, a, port)),
    decreases changes.len(),
{
    reveal(Seq::filter);
    if changes.len() > 0 {
        lemma_reported_of(changes.drop_last(), p, a, port);
        change_is_about_its_entry(changes.last(), p, a, port);
    }
}

/// The owners at a key are the listeners there.
proof fn lemma_listeners(s: SnapshotView, p: Protocol, a: IpAddr, port: u16)
    ensures
        diff::owners_at(s, (p, a, port)) == s.entries.filter(
            |e: PortEntryView| listens_at(e, p, a, port),
        ),
{
    let key = (p, a, port);
    let l = |e: PortEntryView| e.listening();
    let k = |e: PortEntryView| e.protocol == p && e.local_addr == a && e.local_port == port;
    listeners_are_picked(s.entries);
    model_laws::lemma_filter_same(
        s.entries,
        l,
        |e: PortEntryView| e.protocol is Udp || e.state == Some(TcpState::Listen),
    );
    model_laws::entries_at_a_socket_are_picked(diff::listening(s.entries), key);
    model_laws::lemma_filter_twice(
        s.entries,
        l,
        k,
        |e: PortEntryView| listens_at(e, p, a, port),
    );
}

/// The listening entries are all UDP entries and the TCP entries in the
/// listening state, in the order in which they stand.
pub proof fn listeners_are_picked(entries: Seq<PortEntryView>)
    ensures
        diff::listening(entries) == entries.filter(
            |e: PortEntryView| e.protocol is Udp || e.state == Some(TcpState::Listen),
        ),
    decreases entries.len(),
{
    reveal(Seq::filter);
    if entries.len() > 0 {
        listeners_are_picked(entries.drop_last());
    }
}

/// What is picked from a row is in it and meets the test, and all such is
/// picked.
proof fn lemma_picked(s: Seq<PortEntryView>, p: spec_fn(PortEntryView) -> bool)
    ensures
        forall|i: int|
            0 <= i < s.filter(p).len() ==> s.contains(#[trigger] s.filter(p)[i]) && p(
                s.filter(p)[i],
            ),
        forall|i: int|
            0 <= i < s.len() && p(#[trigger] s[i]) ==> s.filter(p).contains(s[i]),
    decreases s.len(),
{
    reveal(Seq::filter);
    if s.len() > 0 {
        let t = s.drop_last();
        lemma_picked(t, p);
        let f = s.filter(p);
        let g = t.filter(p);
        assert forall|i: int| 0 <= i < f.len() implies s.contains(#[trigger] f[i]) && p(f[i]) by {
            if i < g.len() {
                assert(f[i] == g[i]);
                assert(t.contains(g[i]));
                let k = choose|k: int| 0 <= k < t.len() && t[k] == g[i];
                assert(s[k] == f[i]);
            } else {
                assert(s[s.len() - 1] == f[i]);
            }
        }
        assert forall|i: int| 0 <= i < s.len() && p(#[trigger] s[i]) implies f.contains(s[i]) by {
            if i < t.len() {
                assert(t[i] == s[i]);
                assert(g.contains(t[i]));
                let k = choose|k: int| 0 <= k < g.len() && g[k] == t[i];
                assert(f[k] == s[i]);
            } else {
                assert(f[f.len() - 1] == s[i]);
            }
        }
    }
}

/// An owner is among the owners at a key exactly where a process with its
/// pid and name listens there.
proof fn lemma_held_by(
    s: SnapshotView,
    p: Protocol,
    a: IpAddr,
    port: u16,
    pid: Option<u32>,
    name: Option<Seq<char>>,
)
    ensures
        diff::has_owner(diff::owners_at(s, (p, a, port)), (pid, name)) <==> held_by(
            s.entries,
            p,
            a,
            port,
            pid,
            name,
        ),
{
    let o = diff::owners_at(s, (p, a, port));
    let l = |e: PortEntryView| listens_at(e, p, a, port);
    lemma_listeners(s, p, a, port);
    lemma_picked(s.entries, l);
    if diff::has_owner(o, (pid, name)) {
        let i = choose|i: int| 0 <= i < o.len() && (#[trigger] o[i]).owner() == (pid, name);
        assert(s.entries.contains(o[i]) && l(o[i]));
        let k = choose|k: int| 0 <= k < s.entries.len() && s.entries[k] == o[i];
        assert(listens_at(s.entries[k], p, a, port));
    }
    if held_by(s.entries, p, a, port, pid, name) {
        let i = choose|i: int|
            0 <= i < s.entries.len() && listens_at(#[trigger] s.entries[i], p, a, port)
                && s.entries[i].pid == pid && s.entries[i].process_name == name;
        assert(l(s.entries[i]));
        assert(o.contains(s.entries[i]));
        let k = choose|k: int| 0 <= k < o.len() && o[k] == s.entries[i];
        assert(o[k].owner() == (pid, name));
    }
}

/// One owner holds the key exactly where one process listens there.
proof fn lemma_held_only_by(
    s: SnapshotView,
    p: Protocol,
    a: IpAddr,
    port: u16,
    pid: Option<u32>,
    name: Option<Seq<char>>,
)
    ensures
        held_only_by(s.entries, p, a, port, pid, name) <==> (diff::one_owner(
            diff::owners_at(s, (p, a, port)),
        ) && diff::owners_at(s, (p, a, port))[0].owner() == (pid, name)),
{
    let o = diff::owners_at(s, (p, a, port));
    let l = |e: PortEntryView| listens_at(e, p, a, port);
    lemma_held_by(s, p, a, port, pid, name);
    lemma_listeners(s, p, a, port);
    lemma_picked(s.entries, l);
    if held_only_by(s.entries, p, a, port, pid, name) {
        assert forall|i: int| 0 <= i < o.len() implies (#[trigger] o[i]).owner() == (pid, name) by {
            assert(s.entries.contains(o[i]) && l(o[i]));
            let k = choose|k: int| 0 <= k < s.entries.len() && s.entries[k] == o[i];
            assert(listens_at(s.entries[k], p, a, port));
        }
        assert(o.len() > 0);
        assert(o[0].owner() == (pid, name));
    }
    if diff::one_owner(o) && o[0].owner() == (pid, name) {
        assert(o[0].owner() == (pid, name));
        assert(diff::has_owner(o, (pid, name)));
        assert forall|i: int|
            0 <= i < s.entries.len() && listens_at(
                #[trigger] s.entries[i],
                p,
                a,
                port,
            ) implies s.entries[i].pid == pid && s.entries[i].process_name == name by {
            assert(l(s.entries[i]));
            assert(o.contains(s.entries[i]));
            let k = choose|k: int| 0 <= k < o.len() && o[k] == s.entries[i];
            assert(o[k].owner() == o[0].owner());
        }
    }
}

/// Unmatched entries are those picked whose owner is not among the others.
proof fn lemma_unmatched_picked(a: Seq<PortEntryView>, b: Seq<PortEntryView>)
    ensures
        diff::unmatched(a, b) == a.filter(|e: PortEntryView| !diff::has_owner(b, e.owner())),
    decreases a.len(),
{
    reveal(Seq::filter);
    if a.len() > 0 {
        lemma_unmatched_picked(a.drop_last(), b);
    }
}

/// The owners of one snapshot that another does not have at the key.
proof fn lemma_not_among(s: SnapshotView, t: SnapshotView, p: Protocol, a: IpAddr, port: u16)
    ensures
        diff::unmatched(
            diff::owners_at(s, (p, a, port)),
            diff::owners_at(t, (p, a, port)),
        ) == not_among(s.entries, t.entries, p, a, port),
{
    let key = (p, a, port);
    let o = diff::owners_at(t, key);
    let l = |e: PortEntryView| listens_at(e, p, a, port);
    let n = |e: PortEntryView| !diff::has_owner(o, e.owner());
    let both = |e: PortEntryView|
        listens_at(e, p, a, port) && !held_by(t.entries, p, a, port, e.pid, e.process_name);
    lemma_unmatched_picked(diff::owners_at(s, key), o);
    lemma_listeners(s, p, a, port);
    assert forall|e: PortEntryView| #[trigger] both(e) <==> l(e) && n(e) by {
        lemma_held_by(t, p, a, port, e.pid, e.process_name);
    }
    model_laws::lemma_filter_twice(s.entries, l, n, both);
}

/// Where one process alone listened at a protocol, address and port, and
/// another alone does now, what is reported of it is one owner change, from
/// the one to the other.
pub proof fn handover_is_reported_as_such(
    baseline: SnapshotView,
    current: SnapshotView,
    p: Protocol,
    a: IpAddr,
    port: u16,
    old_owner: Owner,
    new_owner: Owner,
)
    requires
        held_only_by(baseline.entries, p, a, port, old_owner.0, old_owner.1),
        held_only_by(current.entries, p, a, port, new_owner.0, new_owner.1),
        old_owner != new_owner,
    ensures
        reported_of(diff::changes_between(baseline, current), p, a, port) == seq![
            ChangeView::OwnerChanged { key: (p, a, port), old_owner, new_owner },
        ],
{
    let key = (p, a, port);
    lemma_held_only_by(baseline, p, a, port, old_owner.0, old_owner.1);
    lemma_held_only_by(current, p, a, port, new_owner.0, new_owner.1);
    handoff_is_one_owner_change(baseline, current, key);
    lemma_reported_of(diff::changes_between(baseline, current), p, a, port);
}

/// Where it is no such handover, what is reported of a protocol, address and
/// port is a removal of every entry there whose process listens there no
/// more, in the order of the baseline, then an addition of every entry there
/// whose process did not listen there before, in the order of the current
/// snapshot; and nothing else.
pub proof fn other_changes_are_reported_entry_by_entry(
    baseline: SnapshotView,
    current: SnapshotView,
    p: Protocol,
    a: IpAddr,
    port: u16,
)
    requires
        forall|old_owner: Owner, new_owner: Owner|
            !(#[trigger] held_only_by(baseline.entries, p, a, port, old_owner.0, old_owner.1)
                && #[trigger] held_only_by(current.entries, p, a, port, new_owner.0, new_owner.1)
                && old_owner != new_owner),
    ensures
        reported_of(diff::changes_between(baseline, current), p, a, port) == not_among(
            baseline.entries,
            current.entries,
            p,
            a,
            port,
        ).map_values(|e: PortEntryView| ChangeView::Removed { entry: e }) + not_among(
            current.entries,
            baseline.entries,
            p,
            a,
            port,
        ).map_values(|e: PortEntryView| ChangeView::Added { entry: e }),
{
    let key = (p, a, port);
    let old = diff::owners_at(baseline, key);
    let new = diff::owners_at(current, key);
    report_is_per_socket(baseline, current, key);
    lemma_reported_of(diff::changes_between(baseline, current), p, a, port);
    lemma_not_among(baseline, current, p, a, port);
    lemma_not_among(current, baseline, p, a, port);
    let left = diff::unmatched(old, new);
    let joined = diff::unmatched(new, old);
    let gone = left.map_values(|e: PortEntryView| ChangeView::Removed { entry: e });
    let come = joined.map_values(|e: PortEntryView| ChangeView::Added { entry: e });
    assert(diff::removals(left) =~= gone);
    assert(diff::additions(joined) =~= come);
    if left.len() == 0 && joined.len() == 0 {
        assert(gone + come =~= seq![]);
    } else if diff::one_owner(old) && diff::one_owner(new) {
        let x = old[0].owner();
        let y = new[0].owner();
        lemma_held_only_by(baseline, p, a, port, x.0, x.1);
        lemma_held_only_by(current, p, a, port, y.0, y.1);
        assert(x == y);
        lemma_key_unchanged(key, old, new);
        assert forall|o: Owner| #[trigger]
            diff::has_owner(old, o) <==> diff::has_owner(new, o) by {
            if diff::has_owner(old, o) {
                let i = choose|i: int| 0 <= i < old.len() && (#[trigger] old[i]).owner() == o;
                assert(old[i].owner() == x);
                assert(new[0].owner() == o);
            }
            if diff::has_owner(new, o) {
                let i = choose|i: int| 0 <= i < new.len() && (#[trigger] new[i]).owner() == o;
                assert(new[i].owner() == y);
                assert(old[0].owner() == o);
            }
        }
        assert(same_owners(old, new));
        assert(false);
    }
}

/// The counts of a report are how many of its changes are of each kind, each
/// count by itself.
pub proof fn counts_are_of_each_kind(changes: Seq<ChangeView>)
    ensures
        diff::added_in(changes) == changes.filter(|c: ChangeView| c is Added).len(),
        diff::removed_in(changes) == changes.filter(|c: ChangeView| c is Removed).len(),
        diff::owner_changed_in(changes) == changes.filter(|c: ChangeView| c is OwnerChanged).len(),
    decreases changes.len(),
{
    reveal(Seq::filter);
    if changes.len() > 0 {
        counts_are_of_each_kind(changes.drop_last());
    }
}

/// The view of a change has all that the change has.
pub proof fn view_keeps_the_change(c: Change)
    ensures
        c matches Change::Added { entry } ==> c@ == (ChangeView::Added { entry: entry@ }),
        c matches Change::Removed { entry } ==> c@ == (ChangeView::Removed { entry: entry@ }),
        c matches Change::OwnerChanged {
            protocol,
            local_addr,
            local_port,
            old_pid,
            old_process_name,
            new_pid,
            new_process_name,
        } ==> c@ == (ChangeView::OwnerChanged {
            key: (protocol, local_addr, local_port),
            old_owner: (
                old_pid,
                match old_process_name {
                    Some(s) => Some(s@),
                    None => None,
                },
            ),
            new_owner: (
                new_pid,
                match new_process_name {
                    Some(s) => Some(s@),
                    None => None,
                },
            ),
        }),
{
}

/// The view of a report is the views of its changes, in order.
pub proof fn view_keeps_the_report(r: DiffReport)
    ensures
        r@.len() == r.changes@.len(),
        forall|i: int| 0 <= i < r.changes@.len() ==> #[trigger] r@[i] == r.changes@[i]@,
{
}

} // verus!

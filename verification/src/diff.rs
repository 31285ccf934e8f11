//! Comparing two snapshots and describing what changed.

use crate::addr::IpAddr;
use crate::model;
use crate::model::{Key, PortEntry, PortEntryView, Protocol, Snapshot, SnapshotView};
use crate::order;
use crate::order::Keyed;
use vstd::prelude::*;
use vstd::slice::*;

verus! {

/// One difference between a baseline snapshot and a newer one.
#[derive(Debug, PartialEq, Eq)]
pub enum Change {
    /// A socket is listening now that was not present in the baseline.
    Added { entry: PortEntry },
    /// A socket that was present in the baseline is gone now.
    Removed { entry: PortEntry },
    /// The same `(protocol, addr, port)` is present in both snapshots but
    /// is now owned by a different process. This is the highest-signal
    /// change: it is what a process replacing another on a well-known port
    /// looks like.
    OwnerChanged {
        protocol: Protocol,
        local_addr: IpAddr,
        local_port: u16,
        old_pid: Option<u32>,
        old_process_name: Option<String>,
        new_pid: Option<u32>,
        new_process_name: Option<String>,
    },
}

/// What a `Change` says. Of an owner change, `key` is the socket and the
/// owners are those before and after.
pub enum ChangeView {
    Added { entry: PortEntryView },
    Removed { entry: PortEntryView },
    OwnerChanged {
        key: Key,
        old_owner: (Option<u32>, Option<Seq<char>>),
        new_owner: (Option<u32>, Option<Seq<char>>),
    },
}

impl View for Change {
    type V = ChangeView;

    open spec fn view(&self) -> ChangeView {
        match *self {
            Change::Added { entry } => ChangeView::Added { entry: entry@ },
            Change::Removed { entry } => ChangeView::Removed { entry: entry@ },
            Change::OwnerChanged {
                protocol,
                local_addr,
                local_port,
                old_pid,
                old_process_name,
                new_pid,
                new_process_name,
            } => ChangeView::OwnerChanged {
                key: (protocol, local_addr, local_port),
                old_owner: (old_pid, model::name_view(old_process_name)),
                new_owner: (new_pid, model::name_view(new_process_name)),
            },
        }
    }
}

impl ChangeView {
    /// The socket that the change is about.
    pub open spec fn key(self) -> Key {
        match self {
            ChangeView::Added { entry } => entry.key(),
            ChangeView::Removed { entry } => entry.key(),
            ChangeView::OwnerChanged { key, .. } => key,
        }
    }
}

/// What the changes of a sequence say.
pub open spec fn change_views(v: Seq<Change>) -> Seq<ChangeView> {
    v.map_values(|c: Change| c@)
}

impl Clone for Change {
    fn clone(&self) -> (r: Self)
        ensures
            r == *self,
    {
        match self {
            Change::Added { entry } => Change::Added { entry: entry.clone() },
            Change::Removed { entry } => Change::Removed { entry: entry.clone() },
            Change::OwnerChanged {
                protocol,
                local_addr,
                local_port,
                old_pid,
                old_process_name,
                new_pid,
                new_process_name,
            } => Change::OwnerChanged {
                protocol: *protocol,
                local_addr: *local_addr,
                local_port: *local_port,
                old_pid: *old_pid,
                old_process_name: model::clone_name(old_process_name),
                new_pid: *new_pid,
                new_process_name: model::clone_name(new_process_name),
            },
        }
    }
}

impl Change {
    /// The socket that the change is about.
    #[must_use]
    pub fn key(&self) -> (r: Key)
        ensures
            r == self@.key(),
    {
        match self {
            Change::Added { entry } => entry.key(),
            Change::Removed { entry } => entry.key(),
            Change::OwnerChanged { protocol, local_addr, local_port, .. } => (
                *protocol,
                *local_addr,
                *local_port,
            ),
        }
    }
}

/// The result of comparing two snapshots: every change, in a stable order
/// (sorted by protocol, then address, then port).
#[derive(Debug, PartialEq, Eq)]
pub struct DiffReport {
    pub changes: Vec<Change>,
}

impl View for DiffReport {
    type V = Seq<ChangeView>;

    open spec fn view(&self) -> Seq<ChangeView> {
        change_views(self.changes@)
    }
}

/// A copy of the changes.
pub fn clone_changes(changes: &Vec<Change>) -> (r: Vec<Change>)
    ensures
        r@ == changes@,
{
    let mut out: Vec<Change> = Vec::new();
    let mut i: usize = 0;
    while i < changes.len()
        invariant
            i <= changes@.len(),
            out@ == changes@.take(i as int),
        decreases changes.len() - i,
    {
        out.push(changes[i].clone());
        i += 1;
        assert(out@ =~= changes@.take(i as int));
    }
    assert(out@ =~= changes@);
    out
}

impl Clone for DiffReport {
    fn clone(&self) -> (r: Self)
        ensures
            r@ == self@,
    {
        DiffReport { changes: clone_changes(&self.changes) }
    }
}

impl Default for DiffReport {
    fn default() -> (r: Self)
        ensures
            r@ == Seq::<ChangeView>::empty(),
    {
        let r = DiffReport { changes: Vec::new() };
        assert(r@ =~= Seq::<ChangeView>::empty());
        r
    }
}

// ---------------------------------------------------------------------
// What a comparison reports
// ---------------------------------------------------------------------

/// The entries that count as listening, in order.
pub open spec fn listening(entries: Seq<PortEntryView>) -> Seq<PortEntryView>
    decreases entries.len(),
{
    if entries.len() == 0 {
        seq![]
    } else {
        let rest = listening(entries.drop_last());
        if entries.last().listening() {
            rest.push(entries.last())
        } else {
            rest
        }
    }
}

/// The listening entries of a snapshot at a key. Each names an owner; an
/// owner that holds several sockets at the key has an entry for each.
pub open spec fn owners_at(s: SnapshotView, key: Key) -> Seq<PortEntryView> {
    model::at_key(listening(s.entries), key)
}

/// Whether one of the entries has this owner.
pub open spec fn has_owner(
    entries: Seq<PortEntryView>,
    owner: (Option<u32>, Option<Seq<char>>),
) -> bool {
    exists|i: int| 0 <= i < entries.len() && (#[trigger] entries[i]).owner() == owner
}

/// The entries of `a` whose owner has no entry in `b`, in order.
pub open spec fn unmatched(a: Seq<PortEntryView>, b: Seq<PortEntryView>) -> Seq<PortEntryView>
    decreases a.len(),
{
    if a.len() == 0 {
        seq![]
    } else {
        let rest = unmatched(a.drop_last(), b);
        if has_owner(b, a.last().owner()) {
            rest
        } else {
            rest.push(a.last())
        }
    }
}

/// Whether all of the entries, of which there are some, have one owner.
pub open spec fn one_owner(entries: Seq<PortEntryView>) -> bool {
    entries.len() > 0 && forall|i: int|
        0 <= i < entries.len() ==> (#[trigger] entries[i]).owner() == entries[0].owner()
}

/// A removal of each of the entries.
pub open spec fn removals(entries: Seq<PortEntryView>) -> Seq<ChangeView> {
    entries.map_values(|e: PortEntryView| ChangeView::Removed { entry: e })
}

/// An addition of each of the entries.
pub open spec fn additions(entries: Seq<PortEntryView>) -> Seq<ChangeView> {
    entries.map_values(|e: PortEntryView| ChangeView::Added { entry: e })
}

/// What is reported of one socket with the entries `old` before and `new`
/// after. Where the sets of owners are the same, nothing. Where one owner
/// handed over to another and there was no third, one owner change, however
/// many entries the two have. Otherwise a removal of each entry whose owner
/// left, then an addition of each whose owner joined.
pub open spec fn key_changes(
    key: Key,
    old: Seq<PortEntryView>,
    new: Seq<PortEntryView>,
) -> Seq<ChangeView> {
    let left = unmatched(old, new);
    let joined = unmatched(new, old);
    if left.len() == 0 && joined.len() == 0 {
        seq![]
    } else if one_owner(old) && one_owner(new) {
        seq![
            ChangeView::OwnerChanged {
                key,
                old_owner: old[0].owner(),
                new_owner: new[0].owner(),
            },
        ]
    } else {
        removals(left) + additions(joined)
    }
}

/// The keys in ascending order, each once.
pub open spec fn ascending(keys: Seq<Key>) -> bool {
    forall|i: int, j: int|
        0 <= i < j < keys.len() ==> model::key_before(#[trigger] keys[i], #[trigger] keys[j])
}

/// Ascending keys with one more put in its place, unless it is there.
pub open spec fn insert_key(keys: Seq<Key>, key: Key) -> Seq<Key>
    decreases keys.len(),
{
    if keys.len() == 0 {
        seq![key]
    } else if keys.last() == key {
        keys
    } else if model::key_before(keys.last(), key) {
        keys.push(key)
    } else {
        insert_key(keys.drop_last(), key).push(keys.last())
    }
}

/// The keys of the entries, ascending, each once.
pub open spec fn keys_of(entries: Seq<PortEntryView>) -> Seq<Key>
    decreases entries.len(),
{
    if entries.len() == 0 {
        seq![]
    } else {
        insert_key(keys_of(entries.drop_last()), entries.last().key())
    }
}

/// The sockets that are listening in either snapshot, ascending.
pub open spec fn all_keys(baseline: SnapshotView, current: SnapshotView) -> Seq<Key> {
    keys_of(listening(baseline.entries) + listening(current.entries))
}

/// What is reported of the sockets with these keys, one after the other.
pub open spec fn changes_over(
    keys: Seq<Key>,
    baseline: SnapshotView,
    current: SnapshotView,
) -> Seq<ChangeView>
    decreases keys.len(),
{
    if keys.len() == 0 {
        seq![]
    } else {
        let key = keys.last();
        changes_over(keys.drop_last(), baseline, current) + key_changes(
            key,
            owners_at(baseline, key),
            owners_at(current, key),
        )
    }
}

/// What changed from the baseline to the current snapshot.
pub open spec fn changes_between(baseline: SnapshotView, current: SnapshotView) -> Seq<ChangeView> {
    changes_over(all_keys(baseline, current), baseline, current)
}

// ---------------------------------------------------------------------
// Facts about keys
// ---------------------------------------------------------------------

/// Putting a key in its place keeps the order and adds that key only.
proof fn lemma_insert_key(keys: Seq<Key>, key: Key)
    requires
        ascending(keys),
    ensures
        ascending(insert_key(keys, key)),
        forall|k: Key| #[trigger]
            insert_key(keys, key).contains(k) <==> k == key || keys.contains(k),
    decreases keys.len(),
{
    let r = insert_key(keys, key);
    if keys.len() == 0 {
        assert(r[0] == key);
    } else if keys.last() == key {
        assert(keys[keys.len() - 1] == key);
    } else if model::key_before(keys.last(), key) {
        assert forall|i: int, j: int| 0 <= i < j < r.len() implies model::key_before(
            #[trigger] r[i],
            #[trigger] r[j],
        ) by {
            if j == keys.len() {
                if i < keys.len() - 1 {
                    assert(model::key_before(keys[i], keys[keys.len() - 1]));
                }
            }
        }
        assert forall|k: Key| #[trigger] r.contains(k) <==> k == key || keys.contains(k) by {
            assert(r[keys.len() as int] == key);
            if keys.contains(k) {
                let i = choose|i: int| 0 <= i < keys.len() && keys[i] == k;
                assert(r[i] == k);
            }
            if r.contains(k) && k != key {
                let i = choose|i: int| 0 <= i < r.len() && r[i] == k;
                assert(keys[i] == k);
            }
        }
    } else {
        let rest = keys.drop_last();
        assert forall|i: int, j: int| 0 <= i < j < rest.len() implies model::key_before(
            #[trigger] rest[i],
            #[trigger] rest[j],
        ) by {
            assert(model::key_before(keys[i], keys[j]));
        }
        lemma_insert_key(rest, key);
        let q = insert_key(rest, key);
        assert forall|i: int, j: int| 0 <= i < j < r.len() implies model::key_before(
            #[trigger] r[i],
            #[trigger] r[j],
        ) by {
            if j == q.len() {
                assert(q.contains(q[i]));
                if q[i] != key {
                    let m = choose|m: int| 0 <= m < rest.len() && rest[m] == q[i];
                    assert(model::key_before(keys[m], keys[keys.len() - 1]));
                }
            } else {
                assert(model::key_before(q[i], q[j]));
            }
        }
        assert forall|k: Key| #[trigger] r.contains(k) <==> k == key || keys.contains(k) by {
            assert(r[q.len() as int] == keys.last());
            assert(keys[keys.len() - 1] == keys.last());
            if q.contains(k) {
                let i = choose|i: int| 0 <= i < q.len() && q[i] == k;
                assert(r[i] == k);
            }
            if r.contains(k) && k != keys.last() {
                let i = choose|i: int| 0 <= i < r.len() && r[i] == k;
                assert(q[i] == k);
                assert(q.contains(k));
            }
            if rest.contains(k) {
                let i = choose|i: int| 0 <= i < rest.len() && rest[i] == k;
                assert(keys[i] == k);
            }
            if keys.contains(k) && k != keys.last() {
                let i = choose|i: int| 0 <= i < keys.len() && keys[i] == k;
                assert(rest[i] == k);
                assert(rest.contains(k));
                assert(q.contains(k));
            }
        }
    }
}

/// The keys of the entries are ascending, and are those with an entry.
pub proof fn lemma_keys_of(entries: Seq<PortEntryView>)
    ensures
        ascending(keys_of(entries)),
        forall|k: Key| #[trigger]
            keys_of(entries).contains(k) <==> model::at_key(entries, k).len() > 0,
    decreases entries.len(),
{
    if entries.len() > 0 {
        let rest = entries.drop_last();
        lemma_keys_of(rest);
        lemma_insert_key(keys_of(rest), entries.last().key());
    }
}

/// Two ascending rows of the same keys are the same row.
pub proof fn lemma_ascending_unique(a: Seq<Key>, b: Seq<Key>)
    requires
        ascending(a),
        ascending(b),
        forall|k: Key| #[trigger] a.contains(k) <==> b.contains(k),
    ensures
        a == b,
    decreases a.len() + b.len(),
{
    if a.len() == 0 {
        if b.len() > 0 {
            assert(b.contains(b[0]));
            assert(a.contains(b[0]));
        }
        assert(a =~= b);
    } else if b.len() == 0 {
        assert(a.contains(a[0]));
        assert(b.contains(a[0]));
    } else {
        let x = a.last();
        let y = b.last();
        assert(a[a.len() - 1] == x && b[b.len() - 1] == y);
        assert(a.contains(x) && b.contains(y));
        assert(b.contains(x) && a.contains(y));
        if x != y {
            let i = choose|i: int| 0 <= i < b.len() && b[i] == x;
            let j = choose|j: int| 0 <= j < a.len() && a[j] == y;
            assert(model::key_before(b[i], b[b.len() - 1]));
            assert(model::key_before(a[j], a[a.len() - 1]));
            assert(false);
        }
        let p = a.drop_last();
        let q = b.drop_last();
        assert forall|i: int, j: int| 0 <= i < j < p.len() implies model::key_before(
            #[trigger] p[i],
            #[trigger] p[j],
        ) by {
            assert(model::key_before(a[i], a[j]));
        }
        assert forall|i: int, j: int| 0 <= i < j < q.len() implies model::key_before(
            #[trigger] q[i],
            #[trigger] q[j],
        ) by {
            assert(model::key_before(b[i], b[j]));
        }
        assert forall|k: Key| #[trigger] p.contains(k) <==> q.contains(k) by {
            if p.contains(k) {
                let i = choose|i: int| 0 <= i < p.len() && p[i] == k;
                assert(a[i] == k);
                assert(model::key_before(a[i], a[a.len() - 1]));
                assert(a.contains(k));
                assert(b.contains(k));
                let m = choose|m: int| 0 <= m < b.len() && b[m] == k;
                assert(q[m] == k);
            }
            if q.contains(k) {
                let i = choose|i: int| 0 <= i < q.len() && q[i] == k;
                assert(b[i] == k);
                assert(model::key_before(b[i], b[b.len() - 1]));
                assert(b.contains(k));
                assert(a.contains(k));
                let m = choose|m: int| 0 <= m < a.len() && a[m] == k;
                assert(p[m] == k);
            }
        }
        lemma_ascending_unique(p, q);
        assert(a =~= p.push(x));
        assert(b =~= q.push(y));
    }
}

/// Entries after one another: at a key, those of the first, then those of
/// the second.
pub proof fn lemma_at_key_add(a: Seq<PortEntryView>, b: Seq<PortEntryView>, key: Key)
    ensures
        model::at_key(a + b, key) == model::at_key(a, key) + model::at_key(b, key),
    decreases b.len(),
{
    if b.len() == 0 {
        assert(a + b =~= a);
        assert(model::at_key(a, key) + model::at_key(b, key) =~= model::at_key(a, key));
    } else {
        lemma_at_key_add(a, b.drop_last(), key);
        assert((a + b).drop_last() =~= a + b.drop_last());
        assert((a + b).last() == b.last());
        assert(model::at_key(a + b, key) =~= model::at_key(a, key) + model::at_key(b, key));
    }
}

/// The sockets listening in either snapshot are ascending, and are those
/// with an owner in one of them.
pub proof fn lemma_all_keys(baseline: SnapshotView, current: SnapshotView)
    ensures
        ascending(all_keys(baseline, current)),
        forall|k: Key| #[trigger]
            all_keys(baseline, current).contains(k) <==> owners_at(baseline, k).len() > 0
                || owners_at(current, k).len() > 0,
{
    let a = listening(baseline.entries);
    let b = listening(current.entries);
    lemma_keys_of(a + b);
    assert forall|k: Key| #[trigger]
        all_keys(baseline, current).contains(k) <==> owners_at(baseline, k).len() > 0 || owners_at(
            current,
            k,
        ).len() > 0 by {
        lemma_at_key_add(a, b, k);
    }
}

// ---------------------------------------------------------------------
// Executable functions
// ---------------------------------------------------------------------

impl DiffReport {
    /// Whether there is no change.
    #[must_use]
    pub fn is_empty(&self) -> (r: bool)
        ensures
            r == (self@.len() == 0),
    {
        self.changes.len() == 0
    }

    /// How many entries were added.
    #[must_use]
    pub fn added_count(&self) -> (r: usize)
        ensures
            r == added_in(self@),
    {
        let mut n: usize = 0;
        let mut i: usize = 0;
        let ghost all = self@;
        while i < self.changes.len()
            invariant
                all == self@,
                i <= self.changes@.len(),
                n <= i,
                n == added_in(all.take(i as int)),
            decreases self.changes.len() - i,
        {
            proof {
                assert(all.take(i + 1).drop_last() =~= all.take(i as int));
                assert(all.take(i + 1).last() == self.changes@[i as int]@);
            }
            if matches!(&self.changes[i], Change::Added { .. }) {
                n += 1;
            }
            i += 1;
        }
        assert(all.take(i as int) =~= all);
        n
    }

    /// How many entries were removed.
    #[must_use]
    pub fn removed_count(&self) -> (r: usize)
        ensures
            r == removed_in(self@),
    {
        let mut n: usize = 0;
        let mut i: usize = 0;
        let ghost all = self@;
        while i < self.changes.len()
            invariant
                all == self@,
                i <= self.changes@.len(),
                n <= i,
                n == removed_in(all.take(i as int)),
            decreases self.changes.len() - i,
        {
            proof {
                assert(all.take(i + 1).drop_last() =~= all.take(i as int));
                assert(all.take(i + 1).last() == self.changes@[i as int]@);
            }
            if matches!(&self.changes[i], Change::Removed { .. }) {
                n += 1;
            }
            i += 1;
        }
        assert(all.take(i as int) =~= all);
        n
    }

    /// How many sockets changed their owner.
    #[must_use]
    pub fn owner_changed_count(&self) -> (r: usize)
        ensures
            r == owner_changed_in(self@),
    {
        let mut n: usize = 0;
        let mut i: usize = 0;
        let ghost all = self@;
        while i < self.changes.len()
            invariant
                all == self@,
                i <= self.changes@.len(),
                n <= i,
                n == owner_changed_in(all.take(i as int)),
            decreases self.changes.len() - i,
        {
            proof {
                assert(all.take(i + 1).drop_last() =~= all.take(i as int));
                assert(all.take(i + 1).last() == self.changes@[i as int]@);
            }
            if matches!(&self.changes[i], Change::OwnerChanged { .. }) {
                n += 1;
            }
            i += 1;
        }
        assert(all.take(i as int) =~= all);
        n
    }
}

/// How many of the changes are additions.
pub open spec fn added_in(changes: Seq<ChangeView>) -> nat
    decreases changes.len(),
{
    if changes.len() == 0 {
        0
    } else {
        added_in(changes.drop_last()) + if changes.last() is Added {
            1nat
        } else {
            0
        }
    }
}

/// How many of the changes are removals.
pub open spec fn removed_in(changes: Seq<ChangeView>) -> nat
    decreases changes.len(),
{
    if changes.len() == 0 {
        0
    } else {
        removed_in(changes.drop_last()) + if changes.last() is Removed {
            1nat
        } else {
            0
        }
    }
}

/// How many of the changes are owner changes.
pub open spec fn owner_changed_in(changes: Seq<ChangeView>) -> nat
    decreases changes.len(),
{
    if changes.len() == 0 {
        0
    } else {
        owner_changed_in(changes.drop_last()) + if changes.last() is OwnerChanged {
            1nat
        } else {
            0
        }
    }
}

impl<'a> Keyed for &'a PortEntry {
    open spec fn sort_key(&self) -> Key {
        self@.key()
    }

    fn key_of(&self) -> (r: Key) {
        self.key()
    }
}

/// What the entries behind a sequence of references say.
pub open spec fn ref_views(v: Seq<&PortEntry>) -> Seq<PortEntryView> {
    v.map_values(|e: &PortEntry| e@)
}

/// What references say at a key is what those at the key say.
proof fn lemma_at_refs(v: Seq<&PortEntry>, key: Key)
    ensures
        model::at_key(ref_views(v), key) == ref_views(order::at(v, key)),
    decreases v.len(),
{
    if v.len() > 0 {
        lemma_at_refs(v.drop_last(), key);
        assert(ref_views(v).drop_last() =~= ref_views(v.drop_last()));
        if v.last()@.key() == key {
            assert(ref_views(order::at(v, key)) =~= ref_views(order::at(v.drop_last(), key)).push(
                v.last()@,
            ));
        }
    } else {
        assert(ref_views(order::at(v, key)) =~= seq![]);
    }
}

/// The listening entries of a snapshot in the order of their keys, with
/// every simultaneous owner of a socket rather than one of them.
fn listening_by_key(snapshot: &Snapshot) -> (r: Vec<&PortEntry>)
    ensures
        order::sorted(r@),
        forall|key: Key|
            ref_views(#[trigger] order::at(r@, key)) == owners_at(snapshot@, key),
{
    let mut found: Vec<&PortEntry> = Vec::new();
    let mut i: usize = 0;
    let ghost all = snapshot@.entries;
    assert(ref_views(found@) =~= listening(all.take(0)));
    while i < snapshot.entries.len()
        invariant
            all == snapshot@.entries,
            i <= snapshot.entries@.len(),
            ref_views(found@) == listening(all.take(i as int)),
        decreases snapshot.entries.len() - i,
    {
        let e = &snapshot.entries[i];
        proof {
            assert(all.take(i + 1).drop_last() =~= all.take(i as int));
            assert(all.take(i + 1).last() == e@);
        }
        if e.is_listening() {
            let ghost before = ref_views(found@);
            found.push(e);
            assert(ref_views(found@) =~= before.push(e@));
        }
        i += 1;
    }
    assert(all.take(i as int) =~= all);
    let out = order::stable_sort(found);
    proof {
        assert forall|key: Key| ref_views(#[trigger] order::at(out@, key)) == owners_at(
            snapshot@,
            key,
        ) by {
            assert(order::at(out@, key) == order::at(found@, key));
            lemma_at_refs(found@, key);
        }
    }
    out
}

/// Whether two optional strings have the same text.
fn same_name(a: &Option<String>, b: &Option<String>) -> (r: bool)
    ensures
        r == (model::name_view(*a) == model::name_view(*b)),
{
    match (a, b) {
        (Some(x), Some(y)) => *x == *y,
        (None, None) => true,
        _ => false,
    }
}

/// Two entries at the same key are "the same owner" if they agree on `pid`
/// and `process_name` - the only fields that identify *who* holds the
/// socket, as opposed to *how* (address family, TCP state, ...).
fn same_owner(a: &PortEntry, b: &PortEntry) -> (r: bool)
    ensures
        r == (a@.owner() == b@.owner()),
{
    let same_pid = match (a.pid, b.pid) {
        (Some(x), Some(y)) => x == y,
        (None, None) => true,
        _ => false,
    };
    same_pid && same_name(&a.process_name, &b.process_name)
}

/// Whether one of the entries has the owner of `e`.
fn any_same_owner(entries: &[&PortEntry], e: &PortEntry) -> (r: bool)
    ensures
        r == has_owner(ref_views(entries@), e@.owner()),
{
    let ghost all = ref_views(entries@);
    let mut i: usize = 0;
    while i < entries.len()
        invariant
            all == ref_views(entries@),
            i <= entries@.len(),
            forall|k: int| 0 <= k < i ==> (#[trigger] all[k]).owner() != e@.owner(),
        decreases entries.len() - i,
    {
        assert(all[i as int] == entries@[i as int]@);
        if same_owner(entries[i], e) {
            return true;
        }
        i += 1;
    }
    false
}

/// The entries of `a` whose owner has no entry in `b`.
fn unmatched_of<'a>(a: &[&'a PortEntry], b: &[&PortEntry]) -> (r: Vec<&'a PortEntry>)
    ensures
        ref_views(r@) == unmatched(ref_views(a@), ref_views(b@)),
{
    let mut out: Vec<&'a PortEntry> = Vec::new();
    let ghost all = ref_views(a@);
    let ghost other = ref_views(b@);
    let mut i: usize = 0;
    assert(ref_views(out@) =~= unmatched(all.take(0), other));
    while i < a.len()
        invariant
            all == ref_views(a@),
            other == ref_views(b@),
            i <= a@.len(),
            ref_views(out@) == unmatched(all.take(i as int), other),
        decreases a.len() - i,
    {
        let e = a[i];
        proof {
            assert(all.take(i + 1).drop_last() =~= all.take(i as int));
            assert(all.take(i + 1).last() == e@);
        }
        if !any_same_owner(b, e) {
            let ghost before = ref_views(out@);
            out.push(e);
            assert(ref_views(out@) =~= before.push(e@));
        }
        i += 1;
    }
    assert(all.take(i as int) =~= all);
    out
}

/// Whether all of the entries, of which there are some, have one owner.
fn is_one_owner(entries: &[&PortEntry]) -> (r: bool)
    ensures
        r == one_owner(ref_views(entries@)),
{
    let ghost all = ref_views(entries@);
    if entries.len() == 0 {
        return false;
    }
    assert(all[0] == entries@[0]@);
    let mut i: usize = 1;
    while i < entries.len()
        invariant
            all == ref_views(entries@),
            all[0] == entries@[0]@,
            1 <= i <= entries@.len(),
            forall|k: int| 0 <= k < i ==> (#[trigger] all[k]).owner() == all[0].owner(),
        decreases entries.len() - i,
    {
        assert(all[i as int] == entries@[i as int]@);
        if !same_owner(entries[i], entries[0]) {
            return false;
        }
        i += 1;
    }
    true
}

/// Append what is reported of one socket with these entries before and
/// after.
fn push_key_changes(key: Key, was: &[&PortEntry], now: &[&PortEntry], out: &mut Vec<Change>)
    ensures
        change_views(final(out)@) == change_views(old(out)@) + key_changes(
            key,
            ref_views(was@),
            ref_views(now@),
        ),
{
    let ghost start = change_views(out@);
    let left = unmatched_of(was, now);
    let joined = unmatched_of(now, was);
    let ghost gone = ref_views(left@);
    let ghost come = ref_views(joined@);
    assert(gone.len() == left@.len() && come.len() == joined@.len());
    if left.len() == 0 && joined.len() == 0 {
        assert(start + seq![] =~= start);
        return ;
    }
    // A clean single-owner handoff (a socket with exactly one owner before
    // and after, and that owner changed) is one event rather than a removal
    // and an addition, also where the owner has several entries. Everything
    // else - a co-owner joining or leaving a shared socket, or several owners
    // changing at once - is reported entry by entry, since there is no single
    // sensible pairing of old and new.
    if is_one_owner(was) && is_one_owner(now) {
        let change = Change::OwnerChanged {
            protocol: key.0,
            local_addr: key.1,
            local_port: key.2,
            old_pid: was[0].pid,
            old_process_name: model::clone_name(&was[0].process_name),
            new_pid: now[0].pid,
            new_process_name: model::clone_name(&now[0].process_name),
        };
        out.push(change);
        proof {
            assert(ref_views(was@)[0] == was@[0]@ && ref_views(now@)[0] == now@[0]@);
            assert(change_views(out@) =~= start + key_changes(
                key,
                ref_views(was@),
                ref_views(now@),
            ));
        }
        return ;
    }
    let mut i: usize = 0;
    assert(change_views(out@) =~= start + removals(gone.take(0)));
    while i < left.len()
        invariant
            gone == ref_views(left@),
            i <= left@.len(),
            change_views(out@) == start + removals(gone.take(i as int)),
        decreases left.len() - i,
    {
        let ghost before = change_views(out@);
        let change = Change::Removed { entry: left[i].clone() };
        out.push(change);
        i += 1;
        assert(change_views(out@) =~= before.push(change@));
        assert(change_views(out@) =~= start + removals(gone.take(i as int)));
    }
    assert(gone.take(i as int) =~= gone);
    let ghost middle = start + removals(gone);
    let mut k: usize = 0;
    assert(change_views(out@) =~= middle + additions(come.take(0)));
    while k < joined.len()
        invariant
            come == ref_views(joined@),
            k <= joined@.len(),
            change_views(out@) == middle + additions(come.take(k as int)),
        decreases joined.len() - k,
    {
        let ghost before = change_views(out@);
        let change = Change::Added { entry: joined[k].clone() };
        out.push(change);
        k += 1;
        assert(change_views(out@) =~= before.push(change@));
        assert(change_views(out@) =~= middle + additions(come.take(k as int)));
    }
    assert(come.take(k as int) =~= come);
    assert(middle + additions(come) =~= start + (removals(gone) + additions(come)));
}

/// The end of the run of entries at `key` that starts at place `i` of a
/// sorted row, which is all there is at the key.
fn run_end(row: &Vec<&PortEntry>, i: usize, key: &Key) -> (r: usize)
    requires
        i <= row.len(),
        order::sorted(row@),
        forall|k: int| 0 <= k < i ==> model::key_before((#[trigger] row@[k]).sort_key(), *key),
        forall|k: int|
            i <= k < row@.len() ==> !model::key_before((#[trigger] row@[k]).sort_key(), *key),
    ensures
        i <= r <= row.len(),
        row@.subrange(i as int, r as int) == order::at(row@, *key),
        forall|k: int| i <= k < r ==> (#[trigger] row@[k]).sort_key() == *key,
        forall|k: int|
            r <= k < row@.len() ==> model::key_before(*key, (#[trigger] row@[k]).sort_key()),
{
    let mut r: usize = i;
    while r < row.len() && !model::is_key_before(key, &row[r].key_of())
        invariant
            i <= r <= row.len(),
            forall|k: int| i <= k < r ==> (#[trigger] row@[k]).sort_key() == *key,
            forall|k: int|
                i <= k < row@.len() ==> !model::key_before((#[trigger] row@[k]).sort_key(), *key),
        decreases row.len() - r,
    {
        assert(!model::key_before(row@[r as int].sort_key(), *key));
        r += 1;
    }
    proof {
        assert forall|k: int| r <= k < row@.len() implies model::key_before(
            *key,
            (#[trigger] row@[k]).sort_key(),
        ) by {
            assert(!model::key_before(row@[k].sort_key(), row@[r as int].sort_key()));
        }
        let head = row@.take(i as int);
        let mid = row@.subrange(i as int, r as int);
        let tail = row@.skip(r as int);
        assert(row@ =~= head + mid + tail);
        order::lemma_at_add(head + mid, tail, *key);
        order::lemma_at_add(head, mid, *key);
        order::lemma_at_none(head, *key);
        order::lemma_at_none(tail, *key);
        order::lemma_at_all(mid, *key);
        assert(order::at(row@, *key) =~= mid);
    }
    r
}

/// Compare a `baseline` snapshot against a `current` one and report every
/// port that appeared, disappeared, or changed owning process.
///
/// Only entries that are actually listening (`PortEntry::is_listening`)
/// are considered: a TCP socket in `TIME_WAIT` or `ESTABLISHED` is not a
/// service accepting connections and would otherwise generate constant,
/// meaningless noise between scans.
///
/// A single `(protocol, address, port)` can legitimately have more than
/// one simultaneous owner - UDP multicast listeners (mDNS on `:5353`, SSDP
/// on `:1900`) commonly bind the same port from several processes with
/// `SO_REUSEADDR`. The full *set* of owners at each key is compared rather
/// than one of them, so the order in which the operating system enumerates
/// co-owners never shows up as a change.
#[must_use]
pub fn diff(baseline: &Snapshot, current: &Snapshot) -> (r: DiffReport)
    ensures
        r@ == changes_between(baseline@, current@),
{
    let before = listening_by_key(baseline);
    let after = listening_by_key(current);
    let mut changes: Vec<Change> = Vec::new();
    let mut i: usize = 0;
    let mut j: usize = 0;
    let ghost mut keys: Seq<Key> = seq![];
    assert(change_views(changes@) =~= changes_over(keys, baseline@, current@));
    while i < before.len() || j < after.len()
        invariant
            order::sorted(before@),
            order::sorted(after@),
            forall|key: Key|
                ref_views(#[trigger] order::at(before@, key)) == owners_at(baseline@, key),
            forall|key: Key|
                ref_views(#[trigger] order::at(after@, key)) == owners_at(current@, key),
            i <= before@.len(),
            j <= after@.len(),
            ascending(keys),
            forall|m: int, k: int|
                0 <= m < keys.len() && i <= k < before@.len() ==> model::key_before(
                    #[trigger] keys[m],
                    (#[trigger] before@[k]).sort_key(),
                ),
            forall|m: int, k: int|
                0 <= m < keys.len() && j <= k < after@.len() ==> model::key_before(
                    #[trigger] keys[m],
                    (#[trigger] after@[k]).sort_key(),
                ),
            forall|k: int| 0 <= k < i ==> keys.contains((#[trigger] before@[k]).sort_key()),
            forall|k: int| 0 <= k < j ==> keys.contains((#[trigger] after@[k]).sort_key()),
            forall|m: int|
                0 <= m < keys.len() ==> owners_at(baseline@, #[trigger] keys[m]).len() > 0
                    || owners_at(current@, keys[m]).len() > 0,
            change_views(changes@) == changes_over(keys, baseline@, current@),
        decreases before.len() - i + after.len() - j,
    {
        let key = if i == before.len() {
            after[j].key_of()
        } else if j == after.len() {
            before[i].key_of()
        } else {
            let a = before[i].key_of();
            let b = after[j].key_of();
            if model::is_key_before(&b, &a) {
                b
            } else {
                a
            }
        };
        proof {
            lemma_split(before@, i as int, keys, key);
            lemma_split(after@, j as int, keys, key);
        }
        let i2 = run_end(&before, i, &key);
        let j2 = run_end(&after, j, &key);
        let was = slice_subrange(before.as_slice(), i, i2);
        let now = slice_subrange(after.as_slice(), j, j2);
        push_key_changes(key, was, now, &mut changes);
        proof {
            let grown = keys.push(key);
            assert(grown.drop_last() =~= keys);
            assert(ref_views(order::at(before@, key)) == owners_at(baseline@, key));
            assert(ref_views(order::at(after@, key)) == owners_at(current@, key));
            lemma_next_key(before@, i as int, i2 as int, keys, key);
            lemma_next_key(after@, j as int, j2 as int, keys, key);
            assert forall|m: int, n: int| 0 <= m < n < grown.len() implies model::key_before(
                #[trigger] grown[m],
                #[trigger] grown[n],
            ) by {
                if n == keys.len() {
                    if i < before@.len() && before@[i as int].sort_key() == key {
                        assert(model::key_before(keys[m], before@[i as int].sort_key()));
                    } else {
                        assert(model::key_before(keys[m], after@[j as int].sort_key()));
                    }
                }
            }
            assert(owners_at(baseline@, key).len() == i2 - i);
            assert(owners_at(current@, key).len() == j2 - j);
            assert forall|m: int| 0 <= m < grown.len() implies owners_at(
                baseline@,
                #[trigger] grown[m],
            ).len() > 0 || owners_at(current@, grown[m]).len() > 0 by {
                if m < keys.len() {
                    assert(grown[m] == keys[m]);
                } else {
                    assert(grown[m] == key);
                    if i < before@.len() && before@[i as int].sort_key() == key {
                        assert(i2 > i);
                    } else {
                        assert(after@[j as int].sort_key() == key);
                        assert(j2 > j);
                    }
                }
            }
            keys = grown;
        }
        i = i2;
        j = j2;
    }
    proof {
        lemma_all_keys(baseline@, current@);
        let all = all_keys(baseline@, current@);
        assert forall|k: Key| #[trigger] keys.contains(k) <==> all.contains(k) by {
            if keys.contains(k) {
                let m = choose|m: int| 0 <= m < keys.len() && keys[m] == k;
                assert(owners_at(baseline@, keys[m]).len() > 0 || owners_at(
                    current@,
                    keys[m],
                ).len() > 0);
            }
            if all.contains(k) {
                order::lemma_at_members(before@, k);
                order::lemma_at_members(after@, k);
                if owners_at(baseline@, k).len() > 0 {
                    let e = order::at(before@, k)[0];
                    assert(before@.contains(e));
                    let n = choose|n: int| 0 <= n < before@.len() && before@[n] == e;
                    assert(keys.contains(before@[n].sort_key()));
                } else {
                    let e = order::at(after@, k)[0];
                    assert(after@.contains(e));
                    let n = choose|n: int| 0 <= n < after@.len() && after@[n] == e;
                    assert(keys.contains(after@[n].sort_key()));
                }
            }
        }
        lemma_ascending_unique(keys, all);
    }
    DiffReport { changes }
}

/// Where the next key is looked for, everything earlier in the row comes
/// before it and nothing later does.
proof fn lemma_split(row: Seq<&PortEntry>, i: int, keys: Seq<Key>, key: Key)
    requires
        order::sorted(row),
        0 <= i <= row.len(),
        forall|m: int| 0 <= m < keys.len() ==> model::key_before(#[trigger] keys[m], key),
        forall|k: int| 0 <= k < i ==> keys.contains((#[trigger] row[k]).sort_key()),
        i < row.len() ==> !model::key_before(row[i].sort_key(), key),
    ensures
        forall|k: int| 0 <= k < i ==> model::key_before((#[trigger] row[k]).sort_key(), key),
        forall|k: int|
            i <= k < row.len() ==> !model::key_before((#[trigger] row[k]).sort_key(), key),
{
    assert forall|k: int| 0 <= k < i implies model::key_before(
        (#[trigger] row[k]).sort_key(),
        key,
    ) by {
        let m = choose|m: int| 0 <= m < keys.len() && keys[m] == row[k].sort_key();
        assert(model::key_before(keys[m], key));
    }
    assert forall|k: int| i <= k < row.len() implies !model::key_before(
        (#[trigger] row[k]).sort_key(),
        key,
    ) by {
        assert(!model::key_before(row[k].sort_key(), row[i].sort_key()));
    }
}

/// After a key is done, every key so far comes before what is left of the
/// row, and is that of everything before.
proof fn lemma_next_key(row: Seq<&PortEntry>, i: int, i2: int, keys: Seq<Key>, key: Key)
    requires
        0 <= i <= i2 <= row.len(),
        forall|k: int| 0 <= k < i ==> keys.contains((#[trigger] row[k]).sort_key()),
        forall|k: int| i <= k < i2 ==> (#[trigger] row[k]).sort_key() == key,
        forall|k: int| i2 <= k < row.len() ==> model::key_before(key, (#[trigger] row[k]).sort_key()),
        forall|m: int| 0 <= m < keys.len() ==> model::key_before(#[trigger] keys[m], key),
    ensures
        forall|m: int, k: int|
            0 <= m < keys.push(key).len() && i2 <= k < row.len() ==> model::key_before(
                #[trigger] keys.push(key)[m],
                (#[trigger] row[k]).sort_key(),
            ),
        forall|k: int|
            0 <= k < i2 ==> keys.push(key).contains((#[trigger] row[k]).sort_key()),
{
    let grown = keys.push(key);
    assert(grown[keys.len() as int] == key);
    assert forall|m: int, k: int|
        0 <= m < grown.len() && i2 <= k < row.len() implies model::key_before(
        #[trigger] grown[m],
        (#[trigger] row[k]).sort_key(),
    ) by {
        if m < keys.len() {
            assert(grown[m] == keys[m]);
        }
    }
    assert forall|k: int| 0 <= k < i2 implies grown.contains((#[trigger] row[k]).sort_key()) by {
        if k < i {
            let m = choose|m: int| 0 <= m < keys.len() && keys[m] == row[k].sort_key();
            assert(grown[m] == keys[m]);
        }
    }
}

} // verus!

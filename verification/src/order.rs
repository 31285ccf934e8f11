//! Putting things with keys in the order of their keys.

use crate::model;
use crate::model::Key;
use vstd::prelude::*;

verus! {

/// Something that has a key by which it is ordered.
pub trait Keyed: Sized {
    /// The key.
    spec fn sort_key(&self) -> Key;

    /// The key.
    fn key_of(&self) -> (r: Key)
        ensures
            r == self.sort_key(),
    ;
}

/// The items at one key, in order.
pub open spec fn at<T: Keyed>(items: Seq<T>, key: Key) -> Seq<T>
    decreases items.len(),
{
    if items.len() == 0 {
        seq![]
    } else {
        let rest = at(items.drop_last(), key);
        if items.last().sort_key() == key {
            rest.push(items.last())
        } else {
            rest
        }
    }
}

/// Whether the keys never step back.
pub open spec fn sorted<T: Keyed>(items: Seq<T>) -> bool {
    forall|i: int, j: int|
        0 <= i <= j < items.len() ==> !model::key_before(
            (#[trigger] items[j]).sort_key(),
            (#[trigger] items[i]).sort_key(),
        )
}

/// Whether `out` holds the items in the order of their keys, with those of
/// one key in the order in which they stand in `items`.
pub open spec fn is_stable_sort<T: Keyed>(out: Seq<T>, items: Seq<T>) -> bool {
    &&& sorted(out)
    &&& forall|key: Key| #[trigger] at(out, key) == at(items, key)
}

/// Items after one another: at a key, those of the first, then those of
/// the second.
pub proof fn lemma_at_add<T: Keyed>(a: Seq<T>, b: Seq<T>, key: Key)
    ensures
        at(a + b, key) == at(a, key) + at(b, key),
    decreases b.len(),
{
    if b.len() == 0 {
        assert(a + b =~= a);
        assert(at(a, key) + at(b, key) =~= at(a, key));
    } else {
        lemma_at_add(a, b.drop_last(), key);
        assert((a + b).drop_last() =~= a + b.drop_last());
        assert((a + b).last() == b.last());
        if b.last().sort_key() == key {
            assert(at(a, key) + at(b.drop_last(), key).push(b.last()) =~= (at(a, key) + at(
                b.drop_last(),
                key,
            )).push(b.last()));
        }
    }
}

/// Items of other keys only: nothing at the key.
pub proof fn lemma_at_none<T: Keyed>(items: Seq<T>, key: Key)
    requires
        forall|i: int| 0 <= i < items.len() ==> (#[trigger] items[i]).sort_key() != key,
    ensures
        at(items, key) == Seq::<T>::empty(),
    decreases items.len(),
{
    if items.len() > 0 {
        assert(items.last().sort_key() != key);
        lemma_at_none(items.drop_last(), key);
    }
}

/// Items of the one key only: all of them at the key.
pub proof fn lemma_at_all<T: Keyed>(items: Seq<T>, key: Key)
    requires
        forall|i: int| 0 <= i < items.len() ==> (#[trigger] items[i]).sort_key() == key,
    ensures
        at(items, key) == items,
    decreases items.len(),
{
    if items.len() > 0 {
        assert(items.last().sort_key() == key);
        lemma_at_all(items.drop_last(), key);
        assert(items =~= items.drop_last().push(items.last()));
    } else {
        assert(items =~= seq![]);
    }
}

/// What is at a key has that key and stands among the items.
pub proof fn lemma_at_members<T: Keyed>(items: Seq<T>, key: Key)
    ensures
        forall|i: int|
            0 <= i < at(items, key).len() ==> (#[trigger] at(items, key)[i]).sort_key() == key
                && items.contains(at(items, key)[i]),
    decreases items.len(),
{
    if items.len() > 0 {
        let rest = items.drop_last();
        lemma_at_members(rest, key);
        assert forall|i: int| 0 <= i < at(items, key).len() implies (#[trigger] at(
            items,
            key,
        )[i]).sort_key() == key && items.contains(at(items, key)[i]) by {
            if i < at(rest, key).len() {
                let x = at(rest, key)[i];
                assert(rest.contains(x));
                let k = choose|k: int| 0 <= k < rest.len() && rest[k] == x;
                assert(items[k] == x);
            } else {
                assert(items[items.len() - 1] == items.last());
            }
        }
    }
}

/// Whether every key of `a` comes before, or is, every key of `b`.
spec fn all_up_to<T: Keyed>(a: Seq<T>, b: Seq<T>) -> bool {
    forall|i: int, j: int|
        0 <= i < a.len() && 0 <= j < b.len() ==> !model::key_before(
            (#[trigger] b[j]).sort_key(),
            (#[trigger] a[i]).sort_key(),
        )
}

/// The items in the order opposite to the one they stand in.
fn reversed<T: Keyed>(items: Vec<T>) -> (r: Vec<T>)
    ensures
        r@ == items@.reverse(),
{
    let ghost given = items@;
    let mut items = items;
    let mut out: Vec<T> = Vec::new();
    while items.len() > 0
        invariant
            items@ == given.take(items@.len() as int),
            items@.len() <= given.len(),
            out@ == given.skip(items@.len() as int).reverse(),
        decreases items.len(),
    {
        let ghost n = items@.len() as int;
        if let Some(x) = items.pop() {
            out.push(x);
            assert(x == given[n - 1]);
            assert(items@ =~= given.take(n - 1));
            assert(out@ =~= given.skip(n - 1).reverse());
        }
    }
    assert(given.skip(0) =~= given);
    out
}

/// Whether two sorted rows and the sorted part `done`, which comes after
/// them, hold the items of `all`, with those of one key in its order.
spec fn merging<T: Keyed>(left: Seq<T>, right: Seq<T>, done: Seq<T>, all: Seq<T>) -> bool {
    &&& sorted(left)
    &&& sorted(right)
    &&& sorted(done)
    &&& all_up_to(left, done)
    &&& all_up_to(right, done)
    &&& forall|key: Key| #[trigger] at(all, key) == at(left, key) + at(right, key) + at(done, key)
}

/// Before the merge nothing is done.
proof fn lemma_merge_start<T: Keyed>(left: Seq<T>, right: Seq<T>)
    requires
        sorted(left),
        sorted(right),
    ensures
        merging(left, right, seq![], left + right),
{
    assert forall|key: Key| #[trigger]
        at(left + right, key) == at(left, key) + at(right, key) + at(Seq::<T>::empty(), key) by {
        lemma_at_add(left, right, key);
        assert(at(left, key) + at(right, key) + at(Seq::<T>::empty(), key) =~= at(left, key) + at(
            right,
            key,
        ));
    }
}

/// The last item of the left row can be moved if its key comes after every
/// key of the right row.
proof fn lemma_merge_left<T: Keyed>(left: Seq<T>, right: Seq<T>, done: Seq<T>, all: Seq<T>)
    requires
        merging(left, right, done, all),
        left.len() > 0,
        right.len() > 0 ==> model::key_before(right.last().sort_key(), left.last().sort_key()),
    ensures
        merging(left.drop_last(), right, seq![left.last()] + done, all),
{
    let x = left.last();
    let rest = left.drop_last();
    let one = seq![x];
    assert(left =~= rest + one);
    lemma_front(rest, right, x, left, done);
    assert forall|key: Key| #[trigger]
        at(all, key) == at(rest, key) + at(right, key) + at(one + done, key) by {
        lemma_at_add(rest, one, key);
        lemma_at_add(one, done, key);
        if x.sort_key() == key {
            assert forall|i: int| 0 <= i < right.len() implies (
            #[trigger] right[i]).sort_key() != key by {
                assert(!model::key_before(right[right.len() - 1].sort_key(), right[i].sort_key()));
            }
            lemma_at_none(right, key);
        } else {
            lemma_at_none(one, key);
        }
        assert(at(rest, key) + at(one, key) + at(right, key) + at(done, key) =~= at(rest, key)
            + at(right, key) + (at(one, key) + at(done, key)));
    }
}

/// The last item of the right row can be moved if no key of the left row
/// comes after its key.
proof fn lemma_merge_right<T: Keyed>(left: Seq<T>, right: Seq<T>, done: Seq<T>, all: Seq<T>)
    requires
        merging(left, right, done, all),
        right.len() > 0,
        left.len() > 0 ==> !model::key_before(right.last().sort_key(), left.last().sort_key()),
    ensures
        merging(left, right.drop_last(), seq![right.last()] + done, all),
{
    let x = right.last();
    let rest = right.drop_last();
    let one = seq![x];
    assert(right =~= rest + one);
    lemma_front(rest, left, x, right, done);
    assert forall|key: Key| #[trigger]
        at(all, key) == at(left, key) + at(rest, key) + at(one + done, key) by {
        lemma_at_add(rest, one, key);
        lemma_at_add(one, done, key);
        assert(at(left, key) + (at(rest, key) + at(one, key)) + at(done, key) =~= at(left, key)
            + at(rest, key) + (at(one, key) + at(done, key)));
    }
}

/// Merge two sorted rows; of equal keys, those of the first come first.
fn merge<T: Keyed>(left: Vec<T>, right: Vec<T>) -> (r: Vec<T>)
    requires
        sorted(left@),
        sorted(right@),
    ensures
        is_stable_sort(r@, left@ + right@),
{
    let ghost all = left@ + right@;
    let mut left = left;
    let mut right = right;
    let mut back: Vec<T> = Vec::new();
    proof {
        lemma_merge_start(left@, right@);
        assert(back@.reverse() =~= seq![]);
    }
    while left.len() > 0 || right.len() > 0
        invariant
            merging(left@, right@, back@.reverse(), all),
        decreases left.len() + right.len(),
    {
        let from_left = if right.len() == 0 {
            true
        } else if left.len() == 0 {
            false
        } else {
            model::is_key_before(
                &right[right.len() - 1].key_of(),
                &left[left.len() - 1].key_of(),
            )
        };
        let ghost b = back@.reverse();
        if from_left {
            proof {
                lemma_merge_left(left@, right@, b, all);
            }
            if let Some(x) = left.pop() {
                back.push(x);
                assert(back@.reverse() =~= seq![x] + b);
            }
        } else {
            proof {
                lemma_merge_right(left@, right@, b, all);
            }
            if let Some(x) = right.pop() {
                back.push(x);
                assert(back@.reverse() =~= seq![x] + b);
            }
        }
    }
    let out = reversed(back);
    proof {
        assert forall|key: Key| #[trigger] at(out@, key) == at(all, key) by {
            assert(at(left@, key) + at(right@, key) + at(out@, key) =~= at(out@, key));
        }
    }
    out
}

/// Moving the last item `x` of one row to the front of the merged part
/// keeps the order, if no item of the other row comes after it.
proof fn lemma_front<T: Keyed>(
    rest: Seq<T>,
    other: Seq<T>,
    x: T,
    row: Seq<T>,
    b: Seq<T>,
)
    requires
        row == rest + seq![x],
        sorted(row),
        sorted(other),
        sorted(b),
        all_up_to(row, b),
        all_up_to(other, b),
        other.len() > 0 ==> !model::key_before(x.sort_key(), other.last().sort_key()),
    ensures
        sorted(rest),
        sorted(seq![x] + b),
        all_up_to(rest, seq![x] + b),
        all_up_to(other, seq![x] + b),
{
    let f = seq![x] + b;
    assert(row.last() == x);
    assert forall|i: int, j: int| 0 <= i <= j < rest.len() implies !model::key_before(
        (#[trigger] rest[j]).sort_key(),
        (#[trigger] rest[i]).sort_key(),
    ) by {
        assert(rest[i] == row[i] && rest[j] == row[j]);
    }
    assert forall|i: int, j: int| 0 <= i <= j < f.len() implies !model::key_before(
        (#[trigger] f[j]).sort_key(),
        (#[trigger] f[i]).sort_key(),
    ) by {
        if i == 0 && j > 0 {
            assert(f[j] == b[j - 1]);
            assert(row[row.len() - 1] == x);
        } else if i > 0 {
            assert(f[i] == b[i - 1] && f[j] == b[j - 1]);
        }
    }
    assert forall|i: int, j: int|
        0 <= i < rest.len() && 0 <= j < f.len() implies !model::key_before(
        (#[trigger] f[j]).sort_key(),
        (#[trigger] rest[i]).sort_key(),
    ) by {
        assert(rest[i] == row[i]);
        if j > 0 {
            assert(f[j] == b[j - 1]);
        } else {
            assert(row[row.len() - 1] == x);
        }
    }
    assert forall|i: int, j: int|
        0 <= i < other.len() && 0 <= j < f.len() implies !model::key_before(
        (#[trigger] f[j]).sort_key(),
        (#[trigger] other[i]).sort_key(),
    ) by {
        if j > 0 {
            assert(f[j] == b[j - 1]);
        } else {
            assert(!model::key_before(
                other[other.len() - 1].sort_key(),
                other[i].sort_key(),
            ));
        }
    }
}

/// The items in the order of their keys; those of one key stay in the
/// order in which they stood.
pub fn stable_sort<T: Keyed>(items: Vec<T>) -> (r: Vec<T>)
    ensures
        is_stable_sort(r@, items@),
    decreases items.len(),
{
    if items.len() < 2 {
        return items;
    }
    let ghost given = items@;
    let mut left = items;
    let half = left.len() / 2;
    let right = left.split_off(half);
    assert(left@ + right@ =~= given);
    let ghost l = left@;
    let ghost r = right@;
    let left = stable_sort(left);
    let right = stable_sort(right);
    let out = merge(left, right);
    proof {
        assert forall|key: Key| #[trigger] at(out@, key) == at(given, key) by {
            lemma_at_add(l, r, key);
            lemma_at_add(left@, right@, key);
            assert(at(left@, key) == at(l, key));
            assert(at(right@, key) == at(r, key));
            assert(at(out@, key) == at(left@ + right@, key));
        }
    }
    out
}

} // verus!

//! Sorting by an integer rank.
use vstd::prelude::*;
use vstd::seq_lib::{to_multiset_build, to_multiset_contains, to_multiset_insert, to_multiset_len};

verus! {

/// Items that are ordered by an integer rank.
pub trait Ranked: Sized {
    /// The position of this item in the order.
    spec fn rank(self) -> int;

    /// Whether this item comes strictly before `other`.
    fn precedes(&self, other: &Self) -> (before: bool)
        ensures
            before == (self.rank() < other.rank()),
    ;
}

impl Ranked for u64 {
    open spec fn rank(self) -> int {
        self as int
    }

    fn precedes(&self, other: &Self) -> (before: bool) {
        *self < *other
    }
}

impl Ranked for (u64, u64) {
    open spec fn rank(self) -> int {
        self.0 * 0x1_0000_0000_0000_0000 + self.1
    }

    fn precedes(&self, other: &Self) -> (before: bool) {
        self.0 < other.0 || (self.0 == other.0 && self.1 < other.1)
    }
}

/// Ranks never decrease along `items`.
pub open spec fn ascending<T: Ranked>(items: Seq<T>) -> bool {
    forall|i: int, j: int| 0 <= i < j < items.len() ==> items[i].rank() <= items[j].rank()
}

/// Ranks strictly increase along `items`.
pub open spec fn strictly_ascending<T: Ranked>(items: Seq<T>) -> bool {
    forall|i: int, j: int| 0 <= i < j < items.len() ==> items[i].rank() < items[j].rank()
}

/// The items of `items` in ascending rank.
pub fn sorted<T: Ranked + Copy>(items: &[T]) -> (out: Vec<T>)
    ensures
        ascending(out@),
        out@.to_multiset() == items@.to_multiset(),
        out@.len() == items@.len(),
{
    let mut out: Vec<T> = Vec::new();
    let mut index: usize = 0;
    assert(items@.subrange(0, 0) =~= Seq::<T>::empty());
    while index < items.len()
        invariant
            index <= items@.len(),
            out@.len() == index,
            ascending(out@),
            out@.to_multiset() == items@.subrange(0, index as int).to_multiset(),
        decreases items@.len() - index,
    {
        let item: T = items[index];
        let ghost before = out@;
        let mut at: usize = out.len();
        while at > 0 && item.precedes(&out[at - 1])
            invariant
                at <= out@.len(),
                out@ == before,
                forall|i: int| at <= i < out@.len() ==> item.rank() < out@[i].rank(),
            decreases at,
        {
            at = at - 1;
        }
        out.insert(at, item);
        proof {
            assert(items@.subrange(0, index + 1) =~= items@.subrange(0, index as int).push(item));
            assert(out@ == before.insert(at as int, item));
            to_multiset_insert(before, at as int, item);
            to_multiset_build(items@.subrange(0, index as int), item);
            assert forall|i: int, j: int| 0 <= i < j < out@.len() implies out@[i].rank()
                <= out@[j].rank() by {
                if at > 0 {
                    assert(before[at - 1].rank() <= item.rank());
                }
                if i < at && at > 0 {
                    assert(before[i].rank() <= before[at - 1].rank());
                }
            }
        }
        index = index + 1;
    }
    assert(items@.subrange(0, items@.len() as int) =~= items@);
    out
}

/// A strictly ascending arrangement is determined by its items.
pub proof fn lemma_strictly_ascending_unique<T: Ranked>(left: Seq<T>, right: Seq<T>)
    requires
        strictly_ascending(left),
        strictly_ascending(right),
        forall|x: T| left.contains(x) <==> right.contains(x),
    ensures
        left == right,
    decreases left.len(),
{
    if left.len() == 0 {
        if right.len() > 0 {
            assert(right.contains(right[0]));
        }
        assert(left =~= right);
    } else {
        assert(left.contains(left.last()));
        assert(right.contains(left.last()));
        assert(right.contains(right.last()));
        assert(left.contains(right.last()));
        let i = choose|i: int| 0 <= i < right.len() && right[i] == left.last();
        let j = choose|j: int| 0 <= j < left.len() && left[j] == right.last();
        assert(left.last().rank() <= right.last().rank());
        assert(right.last().rank() <= left.last().rank());
        assert(left.last() == right.last());
        let l = left.drop_last();
        let r = right.drop_last();
        assert forall|x: T| l.contains(x) <==> r.contains(x) by {
            if l.contains(x) {
                let k = choose|k: int| 0 <= k < l.len() && l[k] == x;
                assert(left[k] == x);
                assert(right.contains(x));
                let m = choose|m: int| 0 <= m < right.len() && right[m] == x;
                assert(m < r.len());
                assert(r[m] == x);
            }
            if r.contains(x) {
                let k = choose|k: int| 0 <= k < r.len() && r[k] == x;
                assert(right[k] == x);
                assert(left.contains(x));
                let m = choose|m: int| 0 <= m < left.len() && left[m] == x;
                assert(m < l.len());
                assert(l[m] == x);
            }
        }
        lemma_strictly_ascending_unique(l, r);
        assert(left =~= l.push(left.last()));
        assert(right =~= r.push(right.last()));
    }
}

/// Sequences with the same multiset have the same items.
pub proof fn lemma_same_items<T>(left: Seq<T>, right: Seq<T>)
    requires
        left.to_multiset() == right.to_multiset(),
    ensures
        forall|x: T| left.contains(x) <==> right.contains(x),
        left.len() == right.len(),
        left.no_duplicates() <==> right.no_duplicates(),
{
    assert forall|x: T| left.contains(x) <==> right.contains(x) by {
        to_multiset_contains(left, x);
        to_multiset_contains(right, x);
    }
    to_multiset_len(left);
    to_multiset_len(right);
    if left.no_duplicates() {
        left.lemma_multiset_has_no_duplicates();
        right.lemma_multiset_has_no_duplicates_conv();
    }
    if right.no_duplicates() {
        right.lemma_multiset_has_no_duplicates();
        left.lemma_multiset_has_no_duplicates_conv();
    }
}

/// `left` comes before `right` in dictionary order.
pub open spec fn bytes_before(left: Seq<u8>, right: Seq<u8>) -> bool
    decreases left.len(),
{
    if right.len() == 0 {
        false
    } else if left.len() == 0 {
        true
    } else if left[0] != right[0] {
        left[0] < right[0]
    } else {
        bytes_before(left.skip(1), right.skip(1))
    }
}

/// Dictionary order on what follows a common prefix of `index` bytes.
proof fn lemma_bytes_before_step(left: Seq<u8>, right: Seq<u8>, index: int)
    requires
        0 <= index < left.len(),
        index < right.len(),
        left[index] == right[index],
    ensures
        bytes_before(left.skip(index), right.skip(index)) == bytes_before(
            left.skip(index + 1),
            right.skip(index + 1),
        ),
{
    assert(left.skip(index).skip(1) =~= left.skip(index + 1));
    assert(right.skip(index).skip(1) =~= right.skip(index + 1));
}

/// Whether `left` comes before `right` in dictionary order.
pub fn is_before(left: &[u8], right: &[u8]) -> (before: bool)
    ensures
        before == bytes_before(left@, right@),
{
    let mut index: usize = 0;
    assert(left@.skip(0) =~= left@);
    assert(right@.skip(0) =~= right@);
    while index < left.len() && index < right.len() && left[index] == right[index]
        invariant
            index <= left@.len(),
            index <= right@.len(),
            bytes_before(left@, right@) == bytes_before(
                left@.skip(index as int),
                right@.skip(index as int),
            ),
        decreases left@.len() - index,
    {
        proof {
            lemma_bytes_before_step(left@, right@, index as int);
        }
        index = index + 1;
    }
    if index == right.len() {
        false
    } else if index == left.len() {
        true
    } else {
        left[index] < right[index]
    }
}

/// Dictionary order is irreflexive.
pub proof fn lemma_not_before_itself(bytes: Seq<u8>)
    ensures
        !bytes_before(bytes, bytes),
    decreases bytes.len(),
{
    if bytes.len() > 0 {
        lemma_not_before_itself(bytes.skip(1));
    }
}

/// Dictionary order is transitive.
pub proof fn lemma_before_transitive(a: Seq<u8>, b: Seq<u8>, c: Seq<u8>)
    requires
        bytes_before(a, b),
        bytes_before(b, c),
    ensures
        bytes_before(a, c),
    decreases a.len(),
{
    if a.len() > 0 && a[0] == b[0] && b[0] == c[0] {
        lemma_before_transitive(a.skip(1), b.skip(1), c.skip(1));
    }
}

/// Two different byte strings are ordered one way or the other.
pub proof fn lemma_before_total(a: Seq<u8>, b: Seq<u8>)
    ensures
        a == b || bytes_before(a, b) || bytes_before(b, a),
    decreases a.len(),
{
    if a.len() > 0 && b.len() > 0 && a[0] == b[0] {
        lemma_before_total(a.skip(1), b.skip(1));
        if a.skip(1) == b.skip(1) {
            assert(a =~= seq![a[0]] + a.skip(1));
            assert(b =~= seq![b[0]] + b.skip(1));
        }
    } else if a.len() == 0 && b.len() == 0 {
        assert(a =~= b);
    }
}

} // verus!

//! Ascending order of doubles given by their bit patterns, and a stable
//! merge sort.

use vstd::prelude::*;
use crate::double::{at_most, key};

verus! {

/// Whether the keys never decrease along the sequence.
pub open spec fn ordered(s: Seq<u64>) -> bool {
    forall|i: int, j: int| 0 <= i <= j < s.len() ==> key(s[i]) <= key(s[j])
}

/// The sequence with `x` put behind its last element whose key is at most
/// that of `x`, or in front where there is none behind which it can stand.
pub open spec fn insert(s: Seq<u64>, x: u64) -> Seq<u64>
    decreases s.len(),
{
    if s.len() == 0 {
        seq![x]
    } else if key(s.last()) <= key(x) {
        s.push(x)
    } else {
        insert(s.drop_last(), x).push(s.last())
    }
}

/// The elements of `s` in ascending order of their keys; elements with
/// equal keys (equal numbers, and the two zeros) keep the order they have
/// in `s`.
pub open spec fn sorted(s: Seq<u64>) -> Seq<u64>
    decreases s.len(),
{
    if s.len() == 0 {
        s
    } else {
        insert(sorted(s.drop_last()), s.last())
    }
}

/// The two sequences merged from their ends: the greater last element goes
/// last, and that of `b` where the keys are equal.
pub open spec fn merge(a: Seq<u64>, b: Seq<u64>) -> Seq<u64>
    decreases a.len() + b.len(),
{
    if a.len() == 0 {
        b
    } else if b.len() == 0 {
        a
    } else if key(a.last()) <= key(b.last()) {
        merge(a, b.drop_last()).push(b.last())
    } else {
        merge(a.drop_last(), b).push(a.last())
    }
}

/// Inserting adds one element and keeps the others.
pub proof fn lemma_insert_contents(s: Seq<u64>, x: u64)
    ensures
        insert(s, x).len() == s.len() + 1,
        insert(s, x).to_multiset() =~= s.to_multiset().insert(x),
    decreases s.len(),
{
    broadcast use vstd::seq_lib::group_to_multiset_ensures;

    if s.len() == 0 {
        assert(seq![x] =~= s.push(x));
    } else if key(s.last()) <= key(x) {
    } else {
        lemma_insert_contents(s.drop_last(), x);
        assert(s.drop_last().push(s.last()) =~= s);
    }
}

/// Inserting into an ordered sequence gives an ordered sequence.
pub proof fn lemma_insert_ordered(s: Seq<u64>, x: u64)
    requires
        ordered(s),
    ensures
        ordered(insert(s, x)),
    decreases s.len(),
{
    if s.len() == 0 {
    } else if key(s.last()) <= key(x) {
    } else {
        let front = s.drop_last();
        lemma_insert_ordered(front, x);
        lemma_insert_contents(front, x);
        lemma_insert_bound(front, x, s.last());
    }
}

/// Where `top` bounds `x` and all of `s`, it bounds all of `insert(s, x)`.
proof fn lemma_insert_bound(s: Seq<u64>, x: u64, top: u64)
    requires
        key(x) <= key(top),
        forall|i: int| 0 <= i < s.len() ==> key(s[i]) <= key(top),
    ensures
        forall|i: int| 0 <= i < insert(s, x).len() ==> key(#[trigger] insert(s, x)[i]) <= key(top),
    decreases s.len(),
{
    lemma_insert_contents(s, x);
    if s.len() == 0 {
    } else if key(s.last()) <= key(x) {
    } else {
        let front = s.drop_last();
        lemma_insert_bound(front, x, top);
        lemma_insert_contents(front, x);
        assert forall|i: int| 0 <= i < insert(s, x).len() implies key(#[trigger] insert(s, x)[i])
            <= key(top) by {
            if i < front.len() + 1 {
                assert(insert(s, x)[i] == insert(front, x)[i]);
            } else {
                assert(insert(s, x)[i] == s.last());
            }
        }
    }
}

/// The sorted sequence holds the elements of `s`, each as often as `s`
/// does, in ascending order of their keys.
pub proof fn lemma_sorted(s: Seq<u64>)
    ensures
        sorted(s).len() == s.len(),
        sorted(s).to_multiset() =~= s.to_multiset(),
        ordered(sorted(s)),
    decreases s.len(),
{
    broadcast use vstd::seq_lib::group_to_multiset_ensures;

    if s.len() > 0 {
        lemma_sorted(s.drop_last());
        lemma_insert_contents(sorted(s.drop_last()), s.last());
        lemma_insert_ordered(sorted(s.drop_last()), s.last());
        assert(s.drop_last().push(s.last()) =~= s);
    }
}

/// Merging keeps every element of both sequences.
pub proof fn lemma_merge_len(a: Seq<u64>, b: Seq<u64>)
    ensures
        merge(a, b).len() == a.len() + b.len(),
    decreases a.len() + b.len(),
{
    if a.len() == 0 || b.len() == 0 {
    } else if key(a.last()) <= key(b.last()) {
        lemma_merge_len(a, b.drop_last());
    } else {
        lemma_merge_len(a.drop_last(), b);
    }
}

/// Inserting into the second sequence before a merge is inserting into the
/// merged sequence.
pub proof fn lemma_merge_insert(a: Seq<u64>, b: Seq<u64>, x: u64)
    ensures
        merge(a, insert(b, x)) == insert(merge(a, b), x),
    decreases a.len() + b.len(),
{
    let bx = insert(b, x);
    let m = merge(a, b);
    lemma_insert_contents(b, x);
    lemma_merge_len(a, b);
    if a.len() == 0 {
    } else if b.len() == 0 {
        assert(bx.last() == x);
        assert(bx.drop_last() =~= b);
        if key(a.last()) <= key(x) {
            assert(merge(a, bx) == merge(a, b).push(x));
        } else {
            lemma_merge_insert(a.drop_last(), b, x);
            assert(merge(a, bx) == merge(a.drop_last(), bx).push(a.last()));
            assert(merge(a.drop_last(), b) == a.drop_last());
        }
    } else if key(b.last()) <= key(x) {
        assert(bx.last() == x);
        assert(bx.drop_last() =~= b);
        if key(a.last()) <= key(x) {
            assert(merge(a, bx) == m.push(x));
            assert(m.last() == a.last() || m.last() == b.last());
        } else {
            lemma_merge_insert(a.drop_last(), b, x);
            assert(merge(a, bx) == merge(a.drop_last(), bx).push(a.last()));
            assert(m == merge(a.drop_last(), b).push(a.last()));
            assert(m.last() == a.last());
            assert(m.drop_last() =~= merge(a.drop_last(), b));
        }
    } else {
        assert(bx.last() == b.last());
        assert(bx.drop_last() =~= insert(b.drop_last(), x));
        if key(a.last()) <= key(b.last()) {
            lemma_merge_insert(a, b.drop_last(), x);
            assert(merge(a, bx) == merge(a, bx.drop_last()).push(b.last()));
            assert(m == merge(a, b.drop_last()).push(b.last()));
            assert(m.last() == b.last());
            assert(m.drop_last() =~= merge(a, b.drop_last()));
        } else {
            lemma_merge_insert(a.drop_last(), b, x);
            assert(merge(a, bx) == merge(a.drop_last(), bx).push(a.last()));
            assert(m == merge(a.drop_last(), b).push(a.last()));
            assert(m.last() == a.last());
            assert(m.drop_last() =~= merge(a.drop_last(), b));
        }
    }
}

/// Sorting a concatenation is merging the two sorted parts.
pub proof fn lemma_sorted_concat(a: Seq<u64>, b: Seq<u64>)
    ensures
        sorted(a + b) == merge(sorted(a), sorted(b)),
    decreases b.len(),
{
    if b.len() == 0 {
        assert(a + b =~= a);
    } else {
        let front = b.drop_last();
        lemma_sorted_concat(a, front);
        assert((a + b).drop_last() =~= a + front);
        lemma_merge_insert(sorted(a), sorted(front), b.last());
    }
}

/// The first of the elements with the least key.
pub open spec fn first_min(s: Seq<u64>) -> u64
    recommends
        s.len() > 0,
    decreases s.len(),
{
    if s.len() <= 1 {
        s[0]
    } else {
        let m = first_min(s.drop_last());
        if key(s.last()) < key(m) {
            s.last()
        } else {
            m
        }
    }
}

/// The last of the elements with the greatest key.
pub open spec fn last_max(s: Seq<u64>) -> u64
    recommends
        s.len() > 0,
    decreases s.len(),
{
    if s.len() <= 1 {
        s[0]
    } else {
        let m = last_max(s.drop_last());
        if key(s.last()) >= key(m) {
            s.last()
        } else {
            m
        }
    }
}

/// What stands first after an insertion into an ordered sequence: the new
/// element where its key is below all others, else what stood first.
proof fn lemma_insert_first(s: Seq<u64>, x: u64)
    requires
        ordered(s),
        s.len() > 0,
    ensures
        insert(s, x)[0] == (if key(x) < key(s[0]) {
            x
        } else {
            s[0]
        }),
    decreases s.len(),
{
    lemma_insert_contents(s, x);
    if key(s.last()) <= key(x) {
    } else if s.len() == 1 {
        assert(insert(s.drop_last(), x) =~= seq![x]);
    } else {
        lemma_insert_contents(s.drop_last(), x);
        lemma_insert_first(s.drop_last(), x);
    }
}

/// The sorted sequence begins with the first minimum and ends with the
/// last maximum.
pub proof fn lemma_sorted_ends(s: Seq<u64>)
    requires
        s.len() > 0,
    ensures
        sorted(s)[0] == first_min(s),
        sorted(s).last() == last_max(s),
    decreases s.len(),
{
    lemma_sorted(s);
    if s.len() == 1 {
        assert(sorted(s.drop_last()) =~= Seq::<u64>::empty());
    } else {
        let front = s.drop_last();
        lemma_sorted(front);
        lemma_sorted_ends(front);
        lemma_insert_first(sorted(front), s.last());
        lemma_insert_contents(sorted(front), s.last());
    }
}

/// Merges two runs into one.
fn merge_runs(a: &Vec<u64>, b: &Vec<u64>) -> (r: Vec<u64>)
    requires
        a.len() + b.len() <= usize::MAX,
    ensures
        r@ == merge(a@, b@),
{
    let n: usize = a.len() + b.len();
    let mut r: Vec<u64> = Vec::with_capacity(n);
    let mut filled: usize = 0;
    while filled < n
        invariant
            filled <= n,
            r.len() == filled,
        decreases n - filled,
    {
        r.push(0);
        filled = filled + 1;
    }
    let mut i: usize = a.len();
    let mut j: usize = b.len();
    proof {
        assert(a@.take(i as int) =~= a@);
        assert(b@.take(j as int) =~= b@);
        assert(merge(a@, b@) + r@.skip(i + j) =~= merge(a@, b@));
    }
    while i > 0 || j > 0
        invariant
            i <= a.len(),
            j <= b.len(),
            n == a.len() + b.len(),
            r.len() == n,
            merge(a@, b@) == merge(a@.take(i as int), b@.take(j as int)) + r@.skip(i + j),
        decreases i + j,
    {
        let ghost left = a@.take(i as int);
        let ghost right = b@.take(j as int);
        let ghost tail = r@.skip(i + j);
        if i == 0 || (j > 0 && at_most(a[i - 1], b[j - 1])) {
            r.set(i + j - 1, b[j - 1]);
            j = j - 1;
            proof {
                assert(right.drop_last() =~= b@.take(j as int));
                if i == 0 {
                    assert(merge(left, right) =~= merge(left, right.drop_last()).push(right.last()));
                }
                assert(merge(left, right.drop_last()).push(right.last()) + tail =~= merge(
                    left,
                    right.drop_last(),
                ) + r@.skip(i + j));
            }
        } else {
            r.set(i + j - 1, a[i - 1]);
            i = i - 1;
            proof {
                assert(left.drop_last() =~= a@.take(i as int));
                if j == 0 {
                    assert(merge(left, right) =~= merge(left.drop_last(), right).push(left.last()));
                }
                assert(merge(left.drop_last(), right).push(left.last()) + tail =~= merge(
                    left.drop_last(),
                    right,
                ) + r@.skip(i + j));
            }
        }
    }
    proof {
        assert(merge(a@.take(0), b@.take(0)) + r@.skip(0) =~= r@);
    }
    r
}

/// Sorts the part of `data` from `lo` up to `hi`.
fn sort_range(data: &[u64], lo: usize, hi: usize) -> (r: Vec<u64>)
    requires
        lo <= hi <= data.len(),
    ensures
        r@ == sorted(data@.subrange(lo as int, hi as int)),
    decreases hi - lo,
{
    let ghost part = data@.subrange(lo as int, hi as int);
    if hi - lo == 0 {
        Vec::new()
    } else if hi - lo == 1 {
        let mut r: Vec<u64> = Vec::new();
        r.push(data[lo]);
        proof {
            assert(sorted(part.drop_last()) =~= Seq::<u64>::empty());
            assert(r@ =~= seq![part.last()]);
        }
        r
    } else {
        let mid: usize = lo + (hi - lo) / 2;
        let left = sort_range(data, lo, mid);
        let right = sort_range(data, mid, hi);
        proof {
            let a = data@.subrange(lo as int, mid as int);
            let b = data@.subrange(mid as int, hi as int);
            assert(a + b =~= part);
            lemma_sorted_concat(a, b);
            lemma_sorted(a);
            lemma_sorted(b);
        }
        merge_runs(&left, &right)
    }
}

/// A sorted copy of `data`: ascending by key, equal keys in the order they
/// have in `data`.
pub fn sort(data: &[u64]) -> (r: Vec<u64>)
    ensures
        r@ == sorted(data@),
        r.len() == data.len(),
{
    proof {
        assert(data@.subrange(0, data.len() as int) =~= data@);
        lemma_sorted(data@);
    }
    sort_range(data, 0, data.len())
}

} // verus!

//! A merge sort for keys with an integer order.

use vstd::prelude::*;

verus! {

/// A value that is sorted by an integer.
pub trait SortKey: Copy {
    /// The integer that decides the order.
    spec fn order(self) -> int;

    /// Whether this value may stand before the other one.
    fn at_most(&self, other: &Self) -> (b: bool)
        ensures
            b == (self.order() <= other.order()),
    ;
}

impl SortKey for i64 {
    open spec fn order(self) -> int {
        self as int
    }

    fn at_most(&self, other: &i64) -> (b: bool) {
        *self <= *other
    }
}

impl SortKey for u64 {
    open spec fn order(self) -> int {
        self as int
    }

    fn at_most(&self, other: &u64) -> (b: bool) {
        *self <= *other
    }
}

/// No element stands before a smaller one.
pub open spec fn in_order<T: SortKey>(s: Seq<T>) -> bool {
    forall|i: int, j: int| 0 <= i <= j < s.len() ==> s[i].order() <= s[j].order()
}

/// Merges two sorted runs.
fn merge<T: SortKey>(a: &Vec<T>, b: &Vec<T>) -> (r: Vec<T>)
    requires
        in_order(a@),
        in_order(b@),
    ensures
        in_order(r@),
        r@.to_multiset() == (a@ + b@).to_multiset(),
{
    let mut r: Vec<T> = Vec::new();
    let mut i: usize = 0;
    let mut j: usize = 0;
    proof {
        assert(a@.take(0) + b@.take(0) =~= r@);
    }
    while i < a.len() || j < b.len()
        invariant
            in_order(a@),
            in_order(b@),
            0 <= i <= a.len(),
            0 <= j <= b.len(),
            in_order(r@),
            r@.to_multiset() == (a@.take(i as int) + b@.take(j as int)).to_multiset(),
            r.len() > 0 && i < a.len() ==> r@.last().order() <= a@[i as int].order(),
            r.len() > 0 && j < b.len() ==> r@.last().order() <= b@[j as int].order(),
        decreases a.len() - i + (b.len() - j),
    {
        let ghost before = r@;
        let left = if i == a.len() {
            false
        } else if j == b.len() {
            true
        } else {
            a[i].at_most(&b[j])
        };
        proof {
            before.to_multiset_ensures();
            vstd::seq_lib::lemma_multiset_commutative(a@.take(i as int), b@.take(j as int));
        }
        if left {
            let x = a[i];
            r.push(x);
            proof {
                a@.take(i as int).to_multiset_ensures();
                assert(a@.take(i + 1) =~= a@.take(i as int).push(x));
                vstd::seq_lib::lemma_multiset_commutative(a@.take(i + 1), b@.take(j as int));
                assert(r@.to_multiset() =~= (a@.take(i + 1) + b@.take(j as int)).to_multiset());
            }
            i = i + 1;
        } else {
            let x = b[j];
            r.push(x);
            proof {
                b@.take(j as int).to_multiset_ensures();
                assert(b@.take(j + 1) =~= b@.take(j as int).push(x));
                vstd::seq_lib::lemma_multiset_commutative(a@.take(i as int), b@.take(j + 1));
                assert(r@.to_multiset() =~= (a@.take(i as int) + b@.take(j + 1)).to_multiset());
            }
            j = j + 1;
        }
    }
    proof {
        assert(a@.take(i as int) =~= a@);
        assert(b@.take(j as int) =~= b@);
    }
    r
}

/// Sorts the elements from `lo` up to `hi`.
fn sort_range<T: SortKey>(v: &[T], lo: usize, hi: usize) -> (r: Vec<T>)
    requires
        lo <= hi <= v.len(),
    ensures
        in_order(r@),
        r@.to_multiset() == v@.subrange(lo as int, hi as int).to_multiset(),
    decreases hi - lo,
{
    if hi - lo <= 1 {
        let mut r: Vec<T> = Vec::new();
        if lo < hi {
            r.push(v[lo]);
        }
        assert(r@ =~= v@.subrange(lo as int, hi as int));
        return r;
    }
    let mid: usize = lo + (hi - lo) / 2;
    let a = sort_range(v, lo, mid);
    let b = sort_range(v, mid, hi);
    proof {
        vstd::seq_lib::lemma_multiset_commutative(a@, b@);
        vstd::seq_lib::lemma_multiset_commutative(
            v@.subrange(lo as int, mid as int),
            v@.subrange(mid as int, hi as int),
        );
        assert(v@.subrange(lo as int, hi as int) =~= v@.subrange(lo as int, mid as int)
            + v@.subrange(mid as int, hi as int));
    }
    merge(&a, &b)
}

/// The same elements in ascending order.
pub fn sorted<T: SortKey>(v: &[T]) -> (r: Vec<T>)
    ensures
        in_order(r@),
        r@.to_multiset() == v@.to_multiset(),
{
    proof {
        assert(v@.subrange(0, v@.len() as int) =~= v@);
    }
    sort_range(v, 0, v.len())
}

} // verus!

//! Stable sorting of positions.
use vstd::prelude::*;

verus! {

/// A total preorder on the positions below `count`.
pub trait PositionOrder {
    spec fn count(&self) -> nat;

    spec fn le(&self, a: int, b: int) -> bool;

    proof fn lemma_total(&self, a: int, b: int)
        ensures
            self.le(a, b) || self.le(b, a),
    ;

    proof fn lemma_transitive(&self, a: int, b: int, c: int)
        requires
            self.le(a, b),
            self.le(b, c),
        ensures
            self.le(a, c),
    ;

    fn at_most(&self, a: usize, b: usize) -> (r: bool)
        requires
            a < self.count(),
            b < self.count(),
        ensures
            r == self.le(a as int, b as int),
    ;
}

/// Whether position `a` stands before position `b` in a stable sort.
pub open spec fn precedes<O: PositionOrder>(order: &O, a: int, b: int) -> bool {
    order.le(a, b) && (!order.le(b, a) || a < b)
}

/// Whether each position of `s` precedes all that follow it.
pub open spec fn in_order<O: PositionOrder>(order: &O, s: Seq<usize>) -> bool {
    forall|i: int, j: int|
        #![trigger s[i], s[j]]
        0 <= i < j < s.len() ==> precedes(order, s[i] as int, s[j] as int)
}

/// Whether `s` holds the positions from `lo` to `hi`, sorted stably.
pub open spec fn is_sorted_range<O: PositionOrder>(order: &O, s: Seq<usize>, lo: int, hi: int) -> bool {
    &&& s.len() == hi - lo
    &&& in_order(order, s)
    &&& forall|k: usize| #[trigger] s.contains(k) <==> lo <= k < hi
}

proof fn lemma_precedes_transitive<O: PositionOrder>(order: &O, a: int, b: int, c: int)
    requires
        precedes(order, a, b),
        precedes(order, b, c),
    ensures
        precedes(order, a, c),
{
    order.lemma_transitive(a, b, c);
    if order.le(c, a) {
        order.lemma_transitive(c, a, b);
        order.lemma_transitive(b, c, a);
    }
}

fn merge<O: PositionOrder>(
    order: &O,
    left: &Vec<usize>,
    right: &Vec<usize>,
    lo: usize,
    mid: usize,
    hi: usize,
) -> (out: Vec<usize>)
    requires
        lo <= mid <= hi <= order.count(),
        is_sorted_range(order, left@, lo as int, mid as int),
        is_sorted_range(order, right@, mid as int, hi as int),
    ensures
        is_sorted_range(order, out@, lo as int, hi as int),
{
    let mut out: Vec<usize> = Vec::new();
    let mut i: usize = 0;
    let mut j: usize = 0;
    while i < left.len() || j < right.len()
        invariant
            lo <= mid <= hi <= order.count(),
            is_sorted_range(order, left@, lo as int, mid as int),
            is_sorted_range(order, right@, mid as int, hi as int),
            i <= left.len(),
            j <= right.len(),
            out.len() == i + j,
            in_order(order, out@),
            forall|k: int, m: int|
                #![trigger out@[k], left@[m]]
                0 <= k < out.len() && i <= m < left.len() ==> precedes(
                    order,
                    out@[k] as int,
                    left@[m] as int,
                ),
            forall|k: int, m: int|
                #![trigger out@[k], right@[m]]
                0 <= k < out.len() && j <= m < right.len() ==> precedes(
                    order,
                    out@[k] as int,
                    right@[m] as int,
                ),
            forall|m: int| 0 <= m < i ==> out@.contains(#[trigger] left@[m]),
            forall|m: int| 0 <= m < j ==> out@.contains(#[trigger] right@[m]),
            forall|k: int| 0 <= k < out.len() ==> lo <= #[trigger] out@[k] < hi,
        decreases left.len() - i + right.len() - j,
    {
        let ghost before = out@;
        proof {
            if i < left.len() {
                assert(left@.contains(left@[i as int]));
            }
            if j < right.len() {
                assert(right@.contains(right@[j as int]));
            }
        }
        let from_left: bool = if i == left.len() {
            false
        } else if j == right.len() {
            true
        } else {
            order.at_most(left[i], right[j])
        };
        if from_left {
            let taken: usize = left[i];
            out.push(taken);
            i = i + 1;
            proof {
                assert forall|m: int| j <= m < right.len() implies precedes(
                    order,
                    taken as int,
                    #[trigger] right@[m] as int,
                ) by {
                    assert(precedes(order, taken as int, right@[j as int] as int));
                    if m > j {
                        lemma_precedes_transitive(
                            order,
                            taken as int,
                            right@[j as int] as int,
                            right@[m] as int,
                        );
                    }
                }
            }
        } else {
            let taken: usize = right[j];
            out.push(taken);
            j = j + 1;
            proof {
                assert forall|m: int| i <= m < left.len() implies precedes(
                    order,
                    taken as int,
                    #[trigger] left@[m] as int,
                ) by {
                    order.lemma_total(left@[i as int] as int, taken as int);
                    assert(precedes(order, taken as int, left@[i as int] as int));
                    if m > i {
                        lemma_precedes_transitive(
                            order,
                            taken as int,
                            left@[i as int] as int,
                            left@[m] as int,
                        );
                    }
                }
            }
        }
        proof {
            assert forall|x: usize| before.contains(x) implies out@.contains(x) by {
                let p = choose|p: int| 0 <= p < before.len() && before[p] == x;
                assert(out@[p] == x);
            }
            assert(out@[before.len() as int] == out@.last());
        }
    }
    proof {
        assert forall|k: usize| #[trigger] out@.contains(k) <==> lo <= k < hi by {
            if lo <= k < mid {
                assert(left@.contains(k));
            } else if mid <= k < hi {
                assert(right@.contains(k));
            }
        }
    }
    out
}

fn sort_range<O: PositionOrder>(order: &O, lo: usize, hi: usize) -> (out: Vec<usize>)
    requires
        lo <= hi <= order.count(),
    ensures
        is_sorted_range(order, out@, lo as int, hi as int),
    decreases hi - lo,
{
    if hi - lo <= 1 {
        let mut out: Vec<usize> = Vec::new();
        if lo < hi {
            out.push(lo);
            assert(out@[0] == lo);
        }
        return out;
    }
    let mid: usize = lo + (hi - lo) / 2;
    let left = sort_range(order, lo, mid);
    let right = sort_range(order, mid, hi);
    merge(order, &left, &right, lo, mid, hi)
}

/// The positions below `count` in ascending order, those that are equivalent by position.
pub fn sorted_positions<O: PositionOrder>(order: &O, count: usize) -> (out: Vec<usize>)
    requires
        count == order.count(),
    ensures
        is_sorted_range(order, out@, 0, count as int),
{
    sort_range(order, 0, count)
}

/// Whether each element of `s` is below all that follow it.
pub open spec fn strictly_sorted<A>(s: Seq<A>, lt: spec_fn(A, A) -> bool) -> bool {
    forall|i: int, j: int| #![trigger s[i], s[j]] 0 <= i < j < s.len() ==> lt(s[i], s[j])
}

/// The elements of a strictly sorted sequence fix the sequence.
pub proof fn lemma_strictly_sorted_unique<A>(a: Seq<A>, b: Seq<A>, lt: spec_fn(A, A) -> bool)
    requires
        strictly_sorted(a, lt),
        strictly_sorted(b, lt),
        forall|x: A, y: A| #![trigger lt(x, y)] lt(x, y) ==> !lt(y, x),
        forall|e: A| #[trigger] a.contains(e) <==> b.contains(e),
    ensures
        a == b,
    decreases a.len(),
{
    if a.len() == 0 {
        if b.len() > 0 {
            assert(b.contains(b[0]));
            assert(a.contains(b[0]));
        }
        assert(a =~= b);
    } else {
        assert(a.contains(a[0]));
        assert(b.contains(b[0]));
        assert(a.contains(b[0]));
        let q = choose|q: int| 0 <= q < b.len() && b[q] == a[0];
        let p = choose|p: int| 0 <= p < a.len() && a[p] == b[0];
        if p > 0 && q > 0 {
            assert(lt(a[0], a[p]));
            assert(lt(b[0], b[q]));
        }
        assert(a[0] == b[0]);
        assert forall|e: A| #[trigger] a.drop_first().contains(e) <==> b.drop_first().contains(e) by {
            if a.drop_first().contains(e) {
                let i = choose|i: int| 0 <= i < a.drop_first().len() && a.drop_first()[i] == e;
                assert(a[i + 1] == e);
                assert(lt(a[0], a[i + 1]));
                assert(a.contains(e));
                let j = choose|j: int| 0 <= j < b.len() && b[j] == e;
                assert(b.drop_first()[j - 1] == e);
            }
            if b.drop_first().contains(e) {
                let i = choose|i: int| 0 <= i < b.drop_first().len() && b.drop_first()[i] == e;
                assert(b[i + 1] == e);
                assert(lt(b[0], b[i + 1]));
                assert(b.contains(e));
                assert(a.contains(e));
                let j = choose|j: int| 0 <= j < a.len() && a[j] == e;
                assert(a.drop_first()[j - 1] == e);
            }
        }
        lemma_strictly_sorted_unique(a.drop_first(), b.drop_first(), lt);
        assert(a =~= seq![a[0]] + a.drop_first());
        assert(b =~= seq![b[0]] + b.drop_first());
    }
}

} // verus!

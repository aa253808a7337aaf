//! Ranges of addresses, and how many of them hold an address.
use crate::obj::{ObjModel, SectionModel};
use vstd::prelude::*;

verus! {

/// Whether a section with an address holds address `a`.
pub open spec fn holds(t: SectionModel, a: int) -> bool {
    t.virtual_address is Some && t.virtual_address->0 <= a < t.virtual_address->0 + t.size
}

/// The addresses of a section, from the first to the one behind the last. There are none for a
/// section without an address.
pub open spec fn range_of(t: SectionModel) -> (int, int) {
    match t.virtual_address {
        Some(start) => (start as int, start + t.size),
        None => (0, 0),
    }
}

pub open spec fn ranges_of(sections: Seq<SectionModel>) -> Seq<(int, int)> {
    Seq::new(sections.len(), |j: int| range_of(sections[j]))
}

/// The ranges of all sections of all objects, in order.
pub open spec fn object_ranges(objects: Seq<ObjModel>) -> Seq<(int, int)>
    decreases objects.len(),
{
    if objects.len() == 0 {
        Seq::empty()
    } else {
        object_ranges(objects.drop_last()) + ranges_of(objects.last().sections)
    }
}

/// The ranges of the splits of a section.
pub open spec fn split_ranges(section: SectionModel) -> Seq<(int, int)> {
    Seq::new(
        section.splits.len(),
        |k: int| (section.splits[k].0 as int, section.splits[k].1.end as int),
    )
}

/// The ranges of the splits of all sections, in order.
pub open spec fn all_split_ranges(sections: Seq<SectionModel>) -> Seq<(int, int)>
    decreases sections.len(),
{
    if sections.len() == 0 {
        Seq::empty()
    } else {
        all_split_ranges(sections.drop_last()) + split_ranges(sections.last())
    }
}

/// The ranges of the sections of an image.
pub open spec fn image_ranges(sections: Seq<SectionModel>) -> Seq<(int, int)> {
    Seq::new(
        sections.len(),
        |k: int| (sections[k].address as int, sections[k].address + sections[k].size),
    )
}

/// How many of the ranges hold address `a`.
pub open spec fn count(s: Seq<(int, int)>, a: int) -> nat
    decreases s.len(),
{
    if s.len() == 0 {
        0
    } else if s.last().0 <= a < s.last().1 {
        count(s.drop_last(), a) + 1
    } else {
        count(s.drop_last(), a)
    }
}

/// Whether some range holds address `a`.
pub open spec fn in_some(s: Seq<(int, int)>, a: int) -> bool {
    exists|p: int| 0 <= p < s.len() && (#[trigger] s[p]).0 <= a < s[p].1
}

/// Whether no address is in both of two ranges.
pub open spec fn disjoint(x: (int, int), y: (int, int)) -> bool {
    x.0 >= x.1 || y.0 >= y.1 || x.1 <= y.0 || y.1 <= x.0
}

/// Whether no two ranges hold one address.
pub open spec fn apart(s: Seq<(int, int)>) -> bool {
    forall|p: int, q: int|
        #![trigger s[p], s[q]]
        0 <= p < s.len() && 0 <= q < s.len() && p != q ==> disjoint(s[p], s[q])
}

pub proof fn lemma_count_concat(s: Seq<(int, int)>, t: Seq<(int, int)>, a: int)
    ensures
        count(s + t, a) == count(s, a) + count(t, a),
    decreases t.len(),
{
    if t.len() == 0 {
        assert(s + t =~= s);
    } else {
        assert((s + t).last() == t.last());
        assert((s + t).drop_last() =~= s + t.drop_last());
        lemma_count_concat(s, t.drop_last(), a);
    }
}

/// A range that holds an address, where one is counted.
pub proof fn lemma_count_some(s: Seq<(int, int)>, a: int) -> (p: int)
    requires
        count(s, a) > 0,
    ensures
        0 <= p < s.len(),
        s[p].0 <= a < s[p].1,
    decreases s.len(),
{
    if s.last().0 <= a < s.last().1 {
        s.len() - 1
    } else {
        lemma_count_some(s.drop_last(), a)
    }
}

pub proof fn lemma_count_remove(s: Seq<(int, int)>, p: int, a: int)
    requires
        0 <= p < s.len(),
    ensures
        count(s, a) == count(s.remove(p), a) + (if s[p].0 <= a < s[p].1 {
            1nat
        } else {
            0
        }),
    decreases s.len(),
{
    let last = s.len() - 1;
    if p == last {
        assert(s.remove(p) =~= s.drop_last());
    } else {
        lemma_count_remove(s.drop_last(), p, a);
        assert(s.remove(p).last() == s.last());
        assert(s.remove(p).drop_last() =~= s.drop_last().remove(p));
    }
}

/// The count is positive exactly where some range holds the address.
pub proof fn lemma_count_in(s: Seq<(int, int)>, a: int)
    ensures
        count(s, a) > 0 <==> in_some(s, a),
{
    if count(s, a) > 0 {
        let p = lemma_count_some(s, a);
        assert(s[p].0 <= a < s[p].1);
    }
    if in_some(s, a) {
        let p = choose|p: int| 0 <= p < s.len() && (#[trigger] s[p]).0 <= a < s[p].1;
        lemma_count_remove(s, p, a);
    }
}

/// Ranges that are apart hold an address once at most.
pub proof fn lemma_apart_count(s: Seq<(int, int)>, a: int)
    requires
        apart(s),
    ensures
        count(s, a) <= 1,
{
    if count(s, a) > 1 {
        let p = lemma_count_some(s, a);
        lemma_count_remove(s, p, a);
        let q = lemma_count_some(s.remove(p), a);
        let r = if q < p {
            q
        } else {
            q + 1
        };
        assert(s[r] == s.remove(p)[q]);
        assert(disjoint(s[p], s[r]));
    }
}

/// Ranges of which each address is held once at most are apart.
pub proof fn lemma_count_apart(s: Seq<(int, int)>)
    requires
        forall|a: int| #[trigger] count(s, a) <= 1,
    ensures
        apart(s),
{
    assert forall|p: int, q: int|
        #![trigger s[p], s[q]]
        0 <= p < s.len() && 0 <= q < s.len() && p != q implies disjoint(s[p], s[q]) by {
        if !disjoint(s[p], s[q]) {
            let a = if s[p].0 < s[q].0 {
                s[q].0
            } else {
                s[p].0
            };
            lemma_count_remove(s, p, a);
            let r = if q < p {
                q
            } else {
                q - 1
            };
            assert(s.remove(p)[r] == s[q]);
            lemma_count_remove(s.remove(p), r, a);
            assert(count(s, a) <= 1);
        }
    }
}

/// How often an address is held depends on the ranges, not on their order.
pub proof fn lemma_count_multiset(s: Seq<(int, int)>, t: Seq<(int, int)>, a: int)
    requires
        s.to_multiset() == t.to_multiset(),
    ensures
        count(s, a) == count(t, a),
    decreases s.len(),
{
    broadcast use vstd::seq_lib::group_to_multiset_ensures;

    assert(s.len() == s.to_multiset().len() && t.len() == t.to_multiset().len());
    if s.len() > 0 {
        let last = s.len() - 1;
        let x = s[last];
        assert(s.contains(x));
        assert(s.to_multiset().count(x) > 0);
        assert(t.contains(x));
        let q = choose|q: int| 0 <= q < t.len() && t[q] == x;
        assert(s.remove(last).to_multiset() =~= t.remove(q).to_multiset());
        lemma_count_multiset(s.remove(last), t.remove(q), a);
        lemma_count_remove(s, last, a);
        lemma_count_remove(t, q, a);
    }
}

pub proof fn lemma_object_ranges_concat(x: Seq<ObjModel>, y: Seq<ObjModel>)
    ensures
        object_ranges(x + y) == object_ranges(x) + object_ranges(y),
    decreases y.len(),
{
    if y.len() == 0 {
        assert(x + y =~= x);
        assert(object_ranges(x) + object_ranges(y) =~= object_ranges(x));
    } else {
        assert((x + y).drop_last() =~= x + y.drop_last());
        lemma_object_ranges_concat(x, y.drop_last());
        assert(object_ranges(x + y) =~= object_ranges(x) + object_ranges(y));
    }
}

/// Objects that hold an address equally often, one by one, do so together.
pub proof fn lemma_count_objects(x: Seq<ObjModel>, y: Seq<ObjModel>, a: int)
    requires
        x.len() == y.len(),
        forall|i: int|
            0 <= i < x.len() ==> count(ranges_of((#[trigger] x[i]).sections), a) == count(
                ranges_of(y[i].sections),
                a,
            ),
    ensures
        count(object_ranges(x), a) == count(object_ranges(y), a),
    decreases x.len(),
{
    if x.len() > 0 {
        let last = x.len() - 1;
        assert forall|i: int| 0 <= i < x.drop_last().len() implies count(
            ranges_of((#[trigger] x.drop_last()[i]).sections),
            a,
        ) == count(ranges_of(y.drop_last()[i].sections), a) by {
            assert(x.drop_last()[i] == x[i] && y.drop_last()[i] == y[i]);
        }
        lemma_count_objects(x.drop_last(), y.drop_last(), a);
        lemma_count_concat(object_ranges(x.drop_last()), ranges_of(x.last().sections), a);
        lemma_count_concat(object_ranges(y.drop_last()), ranges_of(y.last().sections), a);
        assert(x[last] == x.last());
    }
}

pub proof fn lemma_count_object_remove(x: Seq<ObjModel>, p: int, a: int)
    requires
        0 <= p < x.len(),
    ensures
        count(object_ranges(x), a) == count(object_ranges(x.remove(p)), a) + count(
            ranges_of(x[p].sections),
            a,
        ),
    decreases x.len(),
{
    let last = x.len() - 1;
    lemma_count_concat(object_ranges(x.drop_last()), ranges_of(x.last().sections), a);
    if p == last {
        assert(x.remove(p) =~= x.drop_last());
    } else {
        lemma_count_object_remove(x.drop_last(), p, a);
        assert(x.remove(p).last() == x.last());
        assert(x.remove(p).drop_last() =~= x.drop_last().remove(p));
        lemma_count_concat(
            object_ranges(x.remove(p).drop_last()),
            ranges_of(x.remove(p).last().sections),
            a,
        );
    }
}

/// How often an address is held depends on the objects, not on their order.
pub proof fn lemma_count_object_multiset(x: Seq<ObjModel>, y: Seq<ObjModel>, a: int)
    requires
        x.to_multiset() == y.to_multiset(),
    ensures
        count(object_ranges(x), a) == count(object_ranges(y), a),
    decreases x.len(),
{
    broadcast use vstd::seq_lib::group_to_multiset_ensures;

    assert(x.len() == x.to_multiset().len() && y.len() == y.to_multiset().len());
    if x.len() > 0 {
        let last = x.len() - 1;
        let o = x[last];
        assert(x.contains(o));
        assert(x.to_multiset().count(o) > 0);
        assert(y.contains(o));
        let q = choose|q: int| 0 <= q < y.len() && y[q] == o;
        assert(x.remove(last).to_multiset() =~= y.remove(q).to_multiset());
        lemma_count_object_multiset(x.remove(last), y.remove(q), a);
        lemma_count_object_remove(x, last, a);
        lemma_count_object_remove(y, q, a);
    }
}

} // verus!

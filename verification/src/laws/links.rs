//! Laws of the link contributions of an image as a whole.
use crate::contribution;
use crate::obj;
use crate::obj::{ObjModel, ObjReloc, SectionModel, SymbolModel};
use crate::order;
use crate::outcome;
use crate::relink;
use crate::tokens;
use crate::zero_fill;
use vstd::prelude::*;

verus! {

/// Where the index at place `k` goes when index `x` is taken out.
spec fn closed_up(p: Seq<int>, x: int) -> Seq<int> {
    Seq::new(
        p.len(),
        |k: int|
            if p[k] > x {
                p[k] - 1
            } else {
                p[k]
            },
    )
}

/// Taking each element once keeps the elements.
proof fn lemma_permutation(s: Seq<ObjModel>, r: Seq<ObjModel>, p: Seq<int>)
    requires
        p.len() == s.len(),
        r.len() == s.len(),
        forall|k: int| 0 <= k < p.len() ==> 0 <= (#[trigger] p[k]) < s.len() && r[k] == s[p[k]],
        forall|i: int, j: int|
            #![trigger p[i], p[j]]
            0 <= i < j < p.len() ==> p[i] != p[j],
    ensures
        r.to_multiset() == s.to_multiset(),
    decreases s.len(),
{
    broadcast use vstd::seq_lib::group_to_multiset_ensures;

    if s.len() == 0 {
        assert(r =~= s);
    } else {
        let last = s.len() - 1;
        let x = p[last];
        let q = closed_up(p.drop_last(), x);
        let fewer = s.remove(x);
        let rest = r.drop_last();
        assert forall|k: int| 0 <= k < q.len() implies 0 <= (#[trigger] q[k]) < fewer.len()
            && rest[k] == fewer[q[k]] by {
            assert(p[k] != p[last]);
            assert(rest[k] == s[p[k]]);
        }
        assert forall|i: int, j: int| #![trigger q[i], q[j]] 0 <= i < j < q.len() implies q[i]
            != q[j] by {
            assert(p[i] != p[j] && p[i] != p[last] && p[j] != p[last]);
        }
        lemma_permutation(fewer, rest, q);
        assert(r =~= rest.push(s[x]));
        assert(s.contains(s[x]));
        assert(s.to_multiset().count(s[x]) > 0);
        assert(s.to_multiset().remove(s[x]).insert(s[x]) =~= s.to_multiset());
    }
}

/// Sorting objects by address keeps them all, and puts none before one with a lower address.
pub proof fn law_sorting_keeps_objects(s: Seq<ObjModel>, r: Seq<ObjModel>)
    requires
        relink::is_address_sort(s, r),
    ensures
        r.to_multiset() == s.to_multiset(),
        forall|i: int, j: int|
            0 <= i < j < r.len() ==> relink::object_le(#[trigger] r[i], #[trigger] r[j]),
{
    let p = choose|p: Seq<usize>| relink::arranges(s, r, p);
    let q = Seq::new(p.len(), |k: int| p[k] as int);
    assert forall|k: int| 0 <= k < q.len() implies 0 <= (#[trigger] q[k]) < s.len() && r[k]
        == s[q[k]] by {
        assert(p[k] < s.len());
    }
    assert forall|i: int, j: int| #![trigger q[i], q[j]] 0 <= i < j < q.len() implies q[i] != q[j] by {
        assert(relink::object_le(s[p[i] as int], s[p[j] as int]));
    }
    lemma_permutation(s, r, q);
    assert forall|i: int, j: int| 0 <= i < j < r.len() implies relink::object_le(
        #[trigger] r[i],
        #[trigger] r[j],
    ) by {
        assert(p[i] < s.len() && p[j] < s.len());
    }
}

/// Which of two places comes first when objects are sorted.
spec fn place_lt(s: Seq<ObjModel>, a: int, b: int) -> bool {
    &&& relink::object_le(s[a], s[b])
    &&& relink::object_le(s[b], s[a]) ==> a < b
}

/// Places that each stand once are all there.
pub proof fn lemma_all_places(q: Seq<int>)
    requires
        forall|k: int| 0 <= k < q.len() ==> 0 <= #[trigger] q[k] < q.len(),
        q.no_duplicates(),
    ensures
        forall|x: int| #[trigger] q.contains(x) <==> 0 <= x < q.len(),
{
    let all = vstd::set_lib::set_int_range(0, q.len() as int);
    vstd::set_lib::lemma_int_range(0, q.len() as int);
    q.unique_seq_to_set();
    assert(q.to_set().subset_of(all));
    vstd::set_lib::lemma_subset_equality(q.to_set(), all);
    assert forall|x: int| #[trigger] q.contains(x) <==> 0 <= x < q.len() by {
        assert(q.to_set().contains(x) <==> all.contains(x));
    }
}

/// The addresses of objects, and their order where they share one, fix the order of the result.
pub proof fn law_sorting_is_unique(s: Seq<ObjModel>, a: Seq<ObjModel>, b: Seq<ObjModel>)
    requires
        relink::is_address_sort(s, a),
        relink::is_address_sort(s, b),
    ensures
        a == b,
{
    let p = choose|p: Seq<usize>| relink::arranges(s, a, p);
    let q = choose|q: Seq<usize>| relink::arranges(s, b, q);
    let x = Seq::new(p.len(), |k: int| p[k] as int);
    let y = Seq::new(q.len(), |k: int| q[k] as int);
    let lt = |m: int, n: int| place_lt(s, m, n);
    assert(order::strictly_sorted(x, lt)) by {
        assert forall|i: int, j: int| #![trigger x[i], x[j]] 0 <= i < j < x.len() implies lt(
            x[i],
            x[j],
        ) by {
            assert(p[i] < s.len() && p[j] < s.len());
        }
    }
    assert(order::strictly_sorted(y, lt)) by {
        assert forall|i: int, j: int| #![trigger y[i], y[j]] 0 <= i < j < y.len() implies lt(
            y[i],
            y[j],
        ) by {
            assert(q[i] < s.len() && q[j] < s.len());
        }
    }
    assert forall|k: int| 0 <= k < x.len() implies 0 <= #[trigger] x[k] < x.len() by {
        assert(p[k] < s.len());
    }
    assert forall|k: int| 0 <= k < y.len() implies 0 <= #[trigger] y[k] < y.len() by {
        assert(q[k] < s.len());
    }
    assert(x.no_duplicates()) by {
        assert forall|i: int, j: int| 0 <= i < x.len() && 0 <= j < x.len() && i != j implies x[i]
            != x[j] by {
            if i < j {
                assert(lt(x[i], x[j]));
            } else {
                assert(lt(x[j], x[i]));
            }
        }
    }
    assert(y.no_duplicates()) by {
        assert forall|i: int, j: int| 0 <= i < y.len() && 0 <= j < y.len() && i != j implies y[i]
            != y[j] by {
            if i < j {
                assert(lt(y[i], y[j]));
            } else {
                assert(lt(y[j], y[i]));
            }
        }
    }
    lemma_all_places(x);
    lemma_all_places(y);
    order::lemma_strictly_sorted_unique(x, y, lt);
    assert forall|k: int| 0 <= k < a.len() implies a[k] == b[k] by {
        assert(x[k] == y[k]);
        assert(p[k] == q[k]);
    }
    assert(a =~= b);
}

/// The address in the image of a symbol that stands in a section with an address.
pub open spec fn place(o: ObjModel, s: SymbolModel) -> Option<int> {
    match s.section {
        Some(i) => if i < o.sections.len() && o.sections[i as int].virtual_address is Some {
            Some(o.sections[i as int].virtual_address->0 + s.address)
        } else {
            None
        },
        None => None,
    }
}

/// Whether every relocation of `a` is one of `b`, with its kind, target and addend.
pub open spec fn relocations_within(a: Seq<(u32, ObjReloc)>, b: Seq<(u32, ObjReloc)>) -> bool {
    forall|k: int| 0 <= k < a.len() ==> b.contains(#[trigger] a[k])
}

/// Whether a symbol is spelled and flagged as another.
pub open spec fn same_identity(a: SymbolModel, b: SymbolModel) -> bool {
    &&& a.name == b.name
    &&& a.demangled_name == b.demangled_name
    &&& a.size == b.size
    &&& a.size_known == b.size_known
    &&& a.flags == b.flags
    &&& a.kind == b.kind
}

/// Whether `after` carries the contents of `before`: its sections stand where they stood, perhaps
/// with more behind them that have no relocations; no relocation is new; and its symbols are the
/// same, at the same places.
pub open spec fn carries(before: ObjModel, after: ObjModel) -> bool {
    &&& after.kind == before.kind
    &&& after.name == before.name
    &&& after.sections.len() >= before.sections.len()
    &&& forall|j: int|
        #![trigger after.sections[j]]
        0 <= j < before.sections.len() ==> after.sections[j].virtual_address
            == before.sections[j].virtual_address && relocations_within(
            after.sections[j].relocations,
            before.sections[j].relocations,
        )
    &&& forall|j: int|
        #![trigger after.sections[j]]
        before.sections.len() <= j < after.sections.len()
            ==> after.sections[j].relocations.len() == 0
    &&& after.symbols.len() == before.symbols.len()
    &&& forall|k: int|
        #![trigger after.symbols[k]]
        0 <= k < before.symbols.len() ==> {
            &&& same_identity(after.symbols[k], before.symbols[k])
            &&& place(before, before.symbols[k]) is Some ==> place(after, after.symbols[k])
                == place(before, before.symbols[k])
        }
}

proof fn lemma_carries_transitive(a: ObjModel, b: ObjModel, c: ObjModel)
    requires
        carries(a, b),
        carries(b, c),
    ensures
        carries(a, c),
{
    assert forall|j: int| #![trigger c.sections[j]] 0 <= j < a.sections.len() implies c.sections[j].virtual_address
        == a.sections[j].virtual_address && relocations_within(
        c.sections[j].relocations,
        a.sections[j].relocations,
    ) by {
        let x = c.sections[j].relocations;
        let y = b.sections[j].relocations;
        let z = a.sections[j].relocations;
        assert forall|k: int| 0 <= k < x.len() implies z.contains(#[trigger] x[k]) by {
            assert(y.contains(x[k]));
            let m = choose|m: int| 0 <= m < y.len() && y[m] == x[k];
            assert(z.contains(y[m]));
        }
    }
    assert forall|j: int|
        #![trigger c.sections[j]]
        a.sections.len() <= j < c.sections.len() implies c.sections[j].relocations.len() == 0 by {
        if j < b.sections.len() {
            assert(b.sections[j].relocations.len() == 0);
            if c.sections[j].relocations.len() > 0 {
                assert(b.sections[j].relocations.contains(c.sections[j].relocations[0]));
            }
        }
    }
    assert forall|k: int| #![trigger c.symbols[k]] 0 <= k < a.symbols.len() implies {
        &&& same_identity(c.symbols[k], a.symbols[k])
        &&& place(a, a.symbols[k]) is Some ==> place(c, c.symbols[k]) == place(a, a.symbols[k])
    } by {
        assert(same_identity(b.symbols[k], a.symbols[k]));
    }
}

proof fn lemma_restored_carries(image: ObjModel, o: ObjModel)
    requires
        tokens::restored_object(image, o) is Ok,
    ensures
        carries(o, tokens::restored_object(image, o)->Ok_0),
{
    let r = tokens::restored_object(image, o)->Ok_0;
    assert forall|j: int| #![trigger r.sections[j]] 0 <= j < o.sections.len() implies r.sections[j].virtual_address
        == o.sections[j].virtual_address && relocations_within(
        r.sections[j].relocations,
        o.sections[j].relocations,
    ) by {
        let s = o.sections[j];
        assert(tokens::restored_sections(image, o.sections)[j] is Ok);
        match obj::section_at(image.sections, s.virtual_address->0, 0) {
            Some(k) => {
                outcome::lemma_selected_from(
                    s.relocations,
                    tokens::untouched(s, tokens::token_bytes(image.sections[k], s)),
                );
            },
            None => {},
        }
    }
}

proof fn lemma_finished_carries(image: ObjModel, o: ObjModel)
    requires
        contribution::finished_object(image, o) is Ok,
    ensures
        carries(o, contribution::finished_object(image, o)->Ok_0),
{
    let r = contribution::finished_object(image, o)->Ok_0;
    assert forall|j: int| #![trigger r.sections[j]] 0 <= j < o.sections.len() implies r.sections[j].virtual_address
        == o.sections[j].virtual_address && relocations_within(
        r.sections[j].relocations,
        o.sections[j].relocations,
    ) by {
        let s = o.sections[j];
        assert(contribution::finished_sections(image, o)[j] is Ok);
        outcome::lemma_selected_from(
            s.relocations,
            contribution::open_relocations(o.symbols, j, s),
        );
    }
}

/// Where the zero fill of part `i` stands among that of all parts.
pub proof fn lemma_tail_at(parts: Seq<(SectionModel, Option<SectionModel>)>, i: int, n: int)
    requires
        0 <= i < n <= parts.len(),
        parts[i].1 is Some,
    ensures
        zero_fill::tails(parts.take(i)).len() < zero_fill::tails(parts.take(n)).len(),
        zero_fill::tails(parts.take(n))[zero_fill::tails(parts.take(i)).len() as int]
            == parts[i].1->0,
    decreases n,
{
    zero_fill::lemma_tails_push(parts, n - 1);
    if i < n - 1 {
        lemma_tail_at(parts, i, n - 1);
    }
}

/// Each section of zero fill that was cut off comes from some part.
pub proof fn lemma_tails_from(parts: Seq<(SectionModel, Option<SectionModel>)>, n: int)
    requires
        0 <= n <= parts.len(),
    ensures
        forall|t: int|
            #![trigger zero_fill::tails(parts.take(n))[t]]
            0 <= t < zero_fill::tails(parts.take(n)).len() ==> exists|i: int|
                0 <= i < n && (#[trigger] parts[i]).1 == Some(zero_fill::tails(parts.take(n))[t]),
    decreases n,
{
    if n > 0 {
        zero_fill::lemma_tails_push(parts, n - 1);
        lemma_tails_from(parts, n - 1);
        let all = zero_fill::tails(parts.take(n));
        let before = zero_fill::tails(parts.take(n - 1));
        assert forall|t: int| #![trigger all[t]] 0 <= t < all.len() implies exists|i: int|
            0 <= i < n && (#[trigger] parts[i]).1 == Some(all[t]) by {
            if t < before.len() {
                assert(all[t] == before[t]);
                let i = choose|i: int|
                    0 <= i < n - 1 && (#[trigger] parts[i]).1 == Some(before[t]);
                assert(parts[i].1 == Some(all[t]));
            } else {
                assert(parts[n - 1].1 == Some(all[t]));
            }
        }
    } else {
        assert(parts.take(n) =~= Seq::empty());
    }
}

/// Separating the zero fill of an image section keeps the places of all symbols, and adds no
/// relocation.
pub proof fn law_zero_fill_keeps_places(original: SectionModel, o: ObjModel)
    requires
        original.original_raw_size is Some,
        zero_fill::splittable_object(original, o),
        zero_fill::split_object(original, o) is Ok,
        zero_fill::split_object(original, o)->Ok_0.sections.len() <= usize::MAX,
    ensures
        carries(o, zero_fill::split_object(original, o)->Ok_0),
{
    let r = zero_fill::split_object(original, o)->Ok_0;
    let steps = zero_fill::split_sections(original, o.sections);
    let parts = outcome::collected(steps)->Ok_0;
    let n = parts.len() as int;
    assert(parts.take(n) =~= parts);
    assert forall|i: int| 0 <= i < n implies zero_fill::splittable_section(
        original,
        #[trigger] o.sections[i],
    ) && steps[i] is Ok && parts[i] == zero_fill::split_section(original, o.sections[i])->Ok_0 by {
        assert(steps[i] is Ok);
        assert(outcome::reached(steps, i));
    }
    lemma_tails_from(parts, n);
    assert forall|j: int|
        #![trigger r.sections[j]]
        o.sections.len() <= j < r.sections.len() implies r.sections[j].relocations.len() == 0 by {
        let all = zero_fill::tails(parts);
        assert(r.sections[j] == all[j - n]);
        let i = choose|i: int|
            0 <= i < n && (#[trigger] parts[i]).1 == Some(all[j - n]);
        assert(parts[i] == zero_fill::split_section(original, o.sections[i])->Ok_0);
    }
    assert forall|j: int| #![trigger r.sections[j]] 0 <= j < o.sections.len() implies r.sections[j].virtual_address
        == o.sections[j].virtual_address && relocations_within(
        r.sections[j].relocations,
        o.sections[j].relocations,
    ) by {
        assert(r.sections[j] == parts[j].0);
        assert(zero_fill::splittable_section(original, o.sections[j]));
    }
    assert forall|k: int| #![trigger r.symbols[k]] 0 <= k < o.symbols.len() implies {
        &&& same_identity(r.symbols[k], o.symbols[k])
        &&& place(o, o.symbols[k]) is Some ==> place(r, r.symbols[k]) == place(o, o.symbols[k])
    } by {
        let s = o.symbols[k];
        assert(r.symbols[k] == zero_fill::moved(parts, s));
        if place(o, s) is Some {
            let i = s.section->0 as int;
            assert(zero_fill::splittable_section(original, o.sections[i]));
            assert(r.sections[i] == parts[i].0);
            if parts[i].1 is Some && s.address >= parts[i].0.size {
                lemma_tail_at(parts, i, n);
                let t = zero_fill::tails(parts.take(i)).len();
                assert(r.sections[n + t] == zero_fill::tails(parts)[t as int]);
            }
        }
    }
}

proof fn lemma_carries_itself(o: ObjModel)
    ensures
        carries(o, o),
{
    assert forall|j: int| 0 <= j < o.sections.len() implies relocations_within(
        (#[trigger] o.sections[j]).relocations,
        o.sections[j].relocations,
    ) by {
        let x = o.sections[j].relocations;
        assert forall|k: int| 0 <= k < x.len() implies x.contains(#[trigger] x[k]) by {}
    }
}

proof fn lemma_zero_filled_carries(image: ObjModel, objects: Seq<ObjModel>, n: int, i: int)
    requires
        0 <= n,
        0 <= i < objects.len(),
        zero_fill::zero_fillable(image, objects, n),
        zero_fill::zero_filled(image, objects, n) is Ok,
        zero_fill::zero_filled(image, objects, n)->Ok_0[i].sections.len() <= usize::MAX,
    ensures
        zero_fill::zero_filled(image, objects, n)->Ok_0.len() == objects.len(),
        carries(objects[i], zero_fill::zero_filled(image, objects, n)->Ok_0[i]),
    decreases n,
{
    if n == 0 {
        lemma_carries_itself(objects[i]);
    } else {
        let before = zero_fill::zero_filled(image, objects, n - 1)->Ok_0;
        let after = zero_fill::zero_filled(image, objects, n)->Ok_0;
        let original = image.sections[n - 1];
        lemma_zero_filled_len(image, objects, n - 1);
        if zero_fill::has_zero_fill(original) {
            let steps = zero_fill::split_objects(original, before);
            assert(steps[i] is Ok);
            assert(outcome::reached(steps, i));
            assert(after[i] == zero_fill::split_object(original, before[i])->Ok_0);
            assert(zero_fill::splittable_object(original, before[i]));
            law_zero_fill_keeps_places(original, before[i]);
            lemma_zero_filled_carries(image, objects, n - 1, i);
            lemma_carries_transitive(objects[i], before[i], after[i]);
        } else {
            lemma_zero_filled_carries(image, objects, n - 1, i);
        }
    }
}

pub proof fn lemma_zero_filled_len(image: ObjModel, objects: Seq<ObjModel>, n: int)
    requires
        0 <= n,
        zero_fill::zero_filled(image, objects, n) is Ok,
    ensures
        zero_fill::zero_filled(image, objects, n)->Ok_0.len() == objects.len(),
    decreases n,
{
    if n > 0 {
        lemma_zero_filled_len(image, objects, n - 1);
    }
}

/// Whether a section is a contribution: it has an address and needs no alignment, and its name
/// carries the address unless the linker knows the section by its name.
pub open spec fn is_contribution(s: SectionModel) -> bool {
    &&& s.virtual_address is Some
    &&& s.align == 1
    &&& contribution::is_opaque(s.name) || has_address_suffix(s.name, s.virtual_address->0)
}

/// Whether a name ends in a dollar sign and an address.
pub open spec fn has_address_suffix(name: Seq<char>, address: u32) -> bool {
    exists|base: Seq<char>| name == #[trigger] contribution::dollar_name(base, address)
}

/// The first contributions come from the objects that have sections, one each and in order. Each
/// carries the contents of its object: sections and symbols stand where they stood, and no
/// relocation is new or changed. All sections are contributions.
pub proof fn law_links_carry_objects(image: ObjModel, defaults: Seq<ObjModel>, i: int)
    requires
        relink::linkable(image, defaults),
        relink::contributions(image, defaults) is Ok,
        0 <= i < relink::non_empty(defaults).len(),
        relink::contributions(image, defaults)->Ok_0[i].sections.len() <= usize::MAX,
    ensures
        relink::non_empty(defaults).len() <= relink::contributions(image, defaults)->Ok_0.len(),
        carries(relink::non_empty(defaults)[i], relink::contributions(image, defaults)->Ok_0[i]),
        forall|j: int|
            0 <= j < relink::contributions(image, defaults)->Ok_0[i].sections.len()
                ==> is_contribution(
                #[trigger] relink::contributions(image, defaults)->Ok_0[i].sections[j],
            ),
{
    let chosen = relink::non_empty(defaults);
    let n = image.sections.len() as int;
    let restored = tokens::restored(image, chosen)->Ok_0;
    let filled = zero_fill::zero_filled(image, restored, n)->Ok_0;
    let finished = contribution::finished(image, filled)->Ok_0;
    let all = relink::contributions(image, defaults)->Ok_0;
    assert(tokens::restored_objects(image, chosen)[i] is Ok);
    assert(restored[i] == tokens::restored_object(image, chosen[i])->Ok_0);
    lemma_restored_carries(image, chosen[i]);
    lemma_zero_filled_len(image, restored, n);
    assert(contribution::finished_objects(image, filled)[i] is Ok);
    assert(finished[i] == contribution::finished_object(image, filled[i])->Ok_0);
    assert(all[i] == finished[i]);
    lemma_finished_carries(image, filled[i]);
    lemma_zero_filled_carries(image, restored, n, i);
    lemma_carries_transitive(chosen[i], restored[i], filled[i]);
    lemma_carries_transitive(chosen[i], filled[i], finished[i]);
    assert forall|j: int| 0 <= j < all[i].sections.len() implies is_contribution(
        #[trigger] all[i].sections[j],
    ) by {
        let s = filled[i].sections[j];
        assert(contribution::finished_sections(image, filled[i])[j] is Ok);
        assert(all[i].sections[j] == contribution::finished_section(image, filled[i], j)->Ok_0);
        let name = all[i].sections[j].name;
        let address = s.virtual_address->0;
        if s.name == ".reloc"@ && contribution::has_section(image.sections, ".XBLD"@) {
            assert(name == contribution::dollar_name(".XBLD"@, address));
        } else if !contribution::is_opaque(s.name) {
            assert(name == contribution::dollar_name(s.name, address));
        }
    }
}

/// Whether the sections of `after` hold the first bytes of those of `before`.
pub open spec fn holds_first_bytes(before: ObjModel, after: ObjModel) -> bool {
    &&& after.sections.len() >= before.sections.len()
    &&& forall|j: int|
        #![trigger after.sections[j]]
        0 <= j < before.sections.len() ==> after.sections[j].data.is_prefix_of(
            before.sections[j].data,
        ) && after.sections[j].size <= before.sections[j].size
}

proof fn lemma_split_holds(original: SectionModel, o: ObjModel)
    requires
        original.original_raw_size is Some,
        zero_fill::splittable_object(original, o),
        zero_fill::split_object(original, o) is Ok,
    ensures
        holds_first_bytes(o, zero_fill::split_object(original, o)->Ok_0),
{
    let r = zero_fill::split_object(original, o)->Ok_0;
    let steps = zero_fill::split_sections(original, o.sections);
    let parts = outcome::collected(steps)->Ok_0;
    assert forall|j: int|
        #![trigger r.sections[j]]
        0 <= j < o.sections.len() implies r.sections[j].data.is_prefix_of(o.sections[j].data)
        && r.sections[j].size <= o.sections[j].size by {
        assert(steps[j] is Ok);
        assert(outcome::reached(steps, j));
        assert(zero_fill::splittable_section(original, o.sections[j]));
        assert(r.sections[j] == parts[j].0);
        let part = zero_fill::split_section(original, o.sections[j])->Ok_0;
        assert(parts[j] == part);
        assert(part.0.data =~= o.sections[j].data.subrange(0, part.0.data.len() as int));
    }
}

proof fn lemma_zero_filled_holds(image: ObjModel, objects: Seq<ObjModel>, n: int, i: int)
    requires
        0 <= n,
        0 <= i < objects.len(),
        zero_fill::zero_fillable(image, objects, n),
        zero_fill::zero_filled(image, objects, n) is Ok,
    ensures
        holds_first_bytes(objects[i], zero_fill::zero_filled(image, objects, n)->Ok_0[i]),
    decreases n,
{
    if n == 0 {
        let o = objects[i];
        assert forall|j: int| 0 <= j < o.sections.len() implies (#[trigger] o.sections[j]).data.is_prefix_of(
            o.sections[j].data,
        ) by {
            let data = o.sections[j].data;
            assert(data =~= data.subrange(0, data.len() as int));
        }
    } else {
        let first = objects[i];
        let before = zero_fill::zero_filled(image, objects, n - 1)->Ok_0;
        let after = zero_fill::zero_filled(image, objects, n)->Ok_0;
        let original = image.sections[n - 1];
        lemma_zero_filled_len(image, objects, n - 1);
        lemma_zero_filled_holds(image, objects, n - 1, i);
        if zero_fill::has_zero_fill(original) {
            let steps = zero_fill::split_objects(original, before);
            assert(steps[i] is Ok);
            assert(outcome::reached(steps, i));
            assert(after[i] == zero_fill::split_object(original, before[i])->Ok_0);
            assert(zero_fill::splittable_object(original, before[i]));
            lemma_split_holds(original, before[i]);
            assert forall|j: int|
                #![trigger after[i].sections[j]]
                0 <= j < first.sections.len() implies after[i].sections[j].data.is_prefix_of(
                first.sections[j].data,
            ) && after[i].sections[j].size <= first.sections[j].size by {
                let x = after[i].sections[j].data;
                let y = before[i].sections[j].data;
                let z = first.sections[j].data;
                assert(x.is_prefix_of(y) && y.is_prefix_of(z));
                assert(x =~= z.subrange(0, x.len() as int)) by {
                    assert forall|b: int| 0 <= b < x.len() implies x[b] == z[b] by {
                        assert(x[b] == y.subrange(0, x.len() as int)[b]);
                        assert(y[b] == z.subrange(0, y.len() as int)[b]);
                    }
                }
            }
        }
    }
}

/// A contribution holds the bytes of its section, with the original bytes of the image restored,
/// up to its zero fill.
pub proof fn law_links_hold_original_bytes(
    image: ObjModel,
    defaults: Seq<ObjModel>,
    i: int,
    j: int,
)
    requires
        relink::linkable(image, defaults),
        relink::contributions(image, defaults) is Ok,
        0 <= i < relink::non_empty(defaults).len(),
        0 <= j < relink::non_empty(defaults)[i].sections.len(),
    ensures
        tokens::restored_section(image, relink::non_empty(defaults)[i].sections[j]) is Ok,
        relink::contributions(image, defaults)->Ok_0[i].sections[j].data.is_prefix_of(
            tokens::restored_section(
                image,
                relink::non_empty(defaults)[i].sections[j],
            )->Ok_0.data,
        ),
{
    let chosen = relink::non_empty(defaults);
    let n = image.sections.len() as int;
    let restored = tokens::restored(image, chosen)->Ok_0;
    let filled = zero_fill::zero_filled(image, restored, n)->Ok_0;
    let finished = contribution::finished(image, filled)->Ok_0;
    let all = relink::contributions(image, defaults)->Ok_0;
    assert(tokens::restored_objects(image, chosen)[i] is Ok);
    assert(restored[i] == tokens::restored_object(image, chosen[i])->Ok_0);
    assert(tokens::restored_sections(image, chosen[i].sections)[j] is Ok);
    assert(restored[i].sections[j] == tokens::restored_section(
        image,
        chosen[i].sections[j],
    )->Ok_0);
    lemma_zero_filled_len(image, restored, n);
    lemma_zero_filled_holds(image, restored, n, i);
    assert(contribution::finished_objects(image, filled)[i] is Ok);
    assert(finished[i] == contribution::finished_object(image, filled[i])->Ok_0);
    assert(all[i] == finished[i]);
    assert(filled[i].sections[j].data.is_prefix_of(restored[i].sections[j].data));
    assert(contribution::finished_sections(image, filled[i])[j] is Ok);
    assert(all[i].sections[j] == contribution::finished_section(image, filled[i], j)->Ok_0);
}

} // verus!

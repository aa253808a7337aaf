//! Laws of the zero fill that is separated from the sections of objects.
use crate::laws::boundary;
use crate::laws::links;
use crate::laws::padding;
use crate::obj::{ObjModel, ObjSectionKind, SectionModel};
use crate::outcome;
use crate::zero_fill;
use vstd::prelude::*;

verus! {

/// Whether an image section that is cut short shares the name of `s`.
pub open spec fn cuts(section: SectionModel, s: SectionModel) -> bool {
    padding::is_cut_short(section) && section.name == s.name
}

/// Where the image stops storing a section that is cut short.
pub open spec fn stored_until(section: SectionModel) -> int {
    section.address + section.original_raw_size->0
}

/// Whether some of the first `n` image sections cuts sections named as `s` at address `a`.
pub open spec fn is_cut_at(image: ObjModel, n: int, s: SectionModel, a: int) -> bool {
    exists|k: int|
        0 <= k < n && cuts(#[trigger] image.sections[k], s) && stored_until(image.sections[k]) == a
}

/// Whether some of the first `n` image sections cuts sections named as `s` at or before address `a`.
pub open spec fn is_cut_before(image: ObjModel, n: int, s: SectionModel, a: int) -> bool {
    exists|k: int|
        0 <= k < n && cuts(#[trigger] image.sections[k], s) && stored_until(image.sections[k]) <= a
}

/// Whether none of the first `n` image sections cuts sections named as `s` before address `a`.
pub open spec fn is_whole_until(image: ObjModel, n: int, s: SectionModel, a: int) -> bool {
    forall|k: int|
        0 <= k < n && cuts(#[trigger] image.sections[k], s) ==> a <= stored_until(image.sections[k])
}

/// Whether `t` has the bytes of `s`, as many as fit it.
pub open spec fn has_first_bytes(s: SectionModel, t: SectionModel) -> bool {
    &&& t.size == s.size ==> t.data.len() == s.data.len()
    &&& t.size < s.size ==> t.data.len() == if t.size < s.data.len() {
        t.size as int
    } else {
        s.data.len() as int
    }
    &&& forall|x: int| 0 <= x < t.data.len() ==> #[trigger] t.data[x] == s.data[x]
}

/// Whether a name is one of zero fill.
pub open spec fn names_zero_fill(name: Seq<char>) -> bool {
    name.len() > 0 && name.last() == 'z'
}

/// Whether `t` says of itself that it has no bytes, with flags from those of `s`.
pub open spec fn is_empty_fill(s: SectionModel, t: SectionModel) -> bool {
    &&& t.kind == ObjSectionKind::Bss
    &&& t.data.len() == 0
    &&& t.original_flags == padding::zero_fill_flags(s.original_flags)
    &&& names_zero_fill(t.name)
}

/// Whether `t` is what stays in the place of `s`: what the image stores of it, or all of it as zero
/// fill where the image stores nothing. Whatever else there is of `s` stays as it was.
pub open spec fn stays_as(image: ObjModel, n: int, s: SectionModel, t: SectionModel) -> bool {
    let start = s.virtual_address->0;
    &&& t == (SectionModel {
        name: t.name,
        kind: t.kind,
        size: t.size,
        data: t.data,
        original_flags: t.original_flags,
        ..s
    })
    &&& t.size <= s.size
    &&& s.size > 0 ==> t.size > 0
    &&& t.size < s.size ==> forall|i: int|
        0 <= i < t.relocations.len() ==> (#[trigger] t.relocations[i]).0 < t.size
    &&& {
        ||| {
            &&& t.name == s.name
            &&& t.kind == s.kind
            &&& t.original_flags == s.original_flags
            &&& has_first_bytes(s, t)
            &&& is_whole_until(image, n, s, start + t.size)
            &&& t.size == s.size || is_cut_at(image, n, s, start + t.size)
        }
        ||| {
            &&& is_empty_fill(s, t)
            &&& s.relocations.len() == 0
            &&& is_cut_before(image, n, s, start as int)
            &&& boundary::names_apart(image.sections) ==> t.name == s.name.push('z') && t.size
                == s.size
        }
    }
}

/// Whether `t` is zero fill that was cut off from `s`, to the end of `s` where the zero fill of each
/// image section is its own.
pub open spec fn is_rest_of(image: ObjModel, n: int, s: SectionModel, t: SectionModel) -> bool {
    &&& t.virtual_address is Some
    &&& t == (SectionModel {
        name: t.name,
        kind: t.kind,
        size: t.size,
        data: t.data,
        original_flags: t.original_flags,
        virtual_address: t.virtual_address,
        relocations: Seq::empty(),
        ..s
    })
    &&& t.size > 0
    &&& s.virtual_address->0 < t.virtual_address->0
    &&& t.virtual_address->0 + t.size <= s.virtual_address->0 + s.size
    &&& is_empty_fill(s, t)
    &&& is_cut_before(image, n, s, t.virtual_address->0 as int)
    &&& boundary::names_apart(image.sections) ==> {
        &&& t.name == s.name.push('z')
        &&& is_cut_at(image, n, s, t.virtual_address->0 as int)
        &&& t.virtual_address->0 + t.size == s.virtual_address->0 + s.size
    }
}

/// Whether section `x` of `f` is the zero fill that was cut off from section `j` of `r`.
pub open spec fn continues(image: ObjModel, n: int, r: ObjModel, f: ObjModel, j: int, x: int) -> bool {
    &&& r.sections.len() <= x < f.sections.len()
    &&& is_rest_of(image, n, r.sections[j], f.sections[x])
    &&& f.sections[x].virtual_address->0 == r.sections[j].virtual_address->0 + f.sections[j].size
}

pub open spec fn comes_from(image: ObjModel, n: int, r: ObjModel, t: SectionModel) -> bool {
    exists|m: int| 0 <= m < r.sections.len() && is_rest_of(image, n, #[trigger] r.sections[m], t)
}

/// Whether `f` is `r` with its zero fill apart: what the image stores stays in place, what is cut
/// off is behind it, and nothing else is there.
pub open spec fn is_separated(image: ObjModel, n: int, r: ObjModel, f: ObjModel) -> bool {
    &&& f.kind == r.kind
    &&& f.name == r.name
    &&& f.sections.len() >= r.sections.len()
    &&& forall|j: int|
        0 <= j < r.sections.len() ==> stays_as(image, n, r.sections[j], #[trigger] f.sections[j])
    &&& forall|x: int|
        r.sections.len() <= x < f.sections.len() ==> comes_from(
            image,
            n,
            r,
            #[trigger] f.sections[x],
        )
    &&& forall|j: int|
        0 <= j < r.sections.len() && (#[trigger] f.sections[j]).size < r.sections[j].size
            ==> exists|x: int| #[trigger] continues(image, n, r, f, j, x)
}

proof fn lemma_cut_more(image: ObjModel, n: int, s: SectionModel, a: int)
    requires
        0 <= n < image.sections.len(),
    ensures
        is_cut_at(image, n, s, a) ==> is_cut_at(image, n + 1, s, a),
        is_cut_before(image, n, s, a) ==> is_cut_before(image, n + 1, s, a),
        forall|b: int| a <= b && is_cut_before(image, n, s, a) ==> #[trigger] is_cut_before(
            image,
            n + 1,
            s,
            b,
        ),
{
    if is_cut_at(image, n, s, a) {
        let k = choose|k: int|
            0 <= k < n && cuts(#[trigger] image.sections[k], s) && stored_until(image.sections[k])
                == a;
        assert(cuts(image.sections[k], s));
    }
    if is_cut_before(image, n, s, a) {
        let k = choose|k: int|
            0 <= k < n && cuts(#[trigger] image.sections[k], s) && stored_until(image.sections[k])
                <= a;
        assert(cuts(image.sections[k], s));
    }
}

/// Zero fill of `s` has a name that no other image section cuts, where the zero fill of each is its
/// own.
proof fn lemma_own_zero_fill(image: ObjModel, n: int, s: SectionModel, a: int)
    requires
        0 <= n < image.sections.len(),
        is_cut_before(image, n, s, a),
        boundary::names_apart(image.sections),
        padding::is_cut_short(image.sections[n]),
    ensures
        image.sections[n].name != s.name.push('z'),
        image.sections[n].name != s.name,
{
    let k = choose|k: int|
        0 <= k < n && cuts(#[trigger] image.sections[k], s) && stored_until(image.sections[k]) <= a;
    assert(image.sections[k].name != image.sections[n].name);
    assert(image.sections[n].name != image.sections[k].name.push('z'));
}

/// One more image section cuts what stays in the place of a section.
proof fn lemma_stays_cut(image: ObjModel, n: int, s: SectionModel, t: SectionModel)
    requires
        0 <= n < image.sections.len(),
        padding::is_cut_short(image.sections[n]),
        s.virtual_address is Some,
        stays_as(image, n, s, t),
        zero_fill::splittable_section(image.sections[n], t),
        zero_fill::split_section(image.sections[n], t) is Ok,
    ensures
        ({
            let (first, second) = zero_fill::split_section(image.sections[n], t)->Ok_0;
            &&& stays_as(image, n + 1, s, first)
            &&& second is None ==> first.size == t.size
            &&& second is Some ==> is_rest_of(image, n + 1, s, second->0)
                && second->0.virtual_address->0 == s.virtual_address->0 + first.size
        }),
{
    let original = image.sections[n];
    let (first, second) = zero_fill::split_section(original, t)->Ok_0;
    let start = s.virtual_address->0 as int;
    padding::lemma_flags(s.original_flags);
    padding::lemma_flags(t.original_flags);
    lemma_cut_more(image, n, s, start);
    lemma_cut_more(image, n, s, start + t.size);
    let n1 = n + 1;
    assert(image.sections[n1 - 1] == original);
    if t.name == s.name && t.kind == s.kind && t.original_flags == s.original_flags
        && has_first_bytes(s, t) && is_whole_until(image, n, s, start + t.size) && (t.size == s.size
        || is_cut_at(image, n, s, start + t.size)) {
        if zero_fill::reaches_zero_fill(original, t) {
            assert(cuts(image.sections[n], s));
            if second is Some {
                assert(is_cut_at(image, n + 1, s, start + first.size));
                assert(is_cut_before(image, n + 1, s, start + first.size));
                assert(is_whole_until(image, n + 1, s, start + first.size));
                assert(has_first_bytes(s, first));
                if boundary::names_apart(image.sections) && t.size < s.size {
                    let k = choose|k: int|
                        0 <= k < n && cuts(#[trigger] image.sections[k], s) && stored_until(
                            image.sections[k],
                        ) == start + t.size;
                    assert(image.sections[k].name != image.sections[n].name);
                }
            } else {
                assert(is_cut_before(image, n + 1, s, start));
                if t.relocations.len() > 0 {
                    assert(t.relocations[0].0 >= 0);
                }
                if boundary::names_apart(image.sections) && t.size < s.size {
                    let k = choose|k: int|
                        0 <= k < n && cuts(#[trigger] image.sections[k], s) && stored_until(
                            image.sections[k],
                        ) == start + t.size;
                    assert(image.sections[k].name != image.sections[n].name);
                }
            }
        } else {
            assert(is_whole_until(image, n + 1, s, start + t.size));
        }
    } else {
        if boundary::names_apart(image.sections) {
            lemma_own_zero_fill(image, n, s, start);
        }
        if second is Some {
            lemma_cut_more(image, n, s, start);
            assert(is_cut_before(image, n + 1, s, start + first.size));
        }
    }
}

/// One more image section cuts zero fill that was cut off.
proof fn lemma_rest_cut(image: ObjModel, n: int, s: SectionModel, t: SectionModel)
    requires
        0 <= n < image.sections.len(),
        padding::is_cut_short(image.sections[n]),
        s.virtual_address is Some,
        is_rest_of(image, n, s, t),
        zero_fill::splittable_section(image.sections[n], t),
        zero_fill::split_section(image.sections[n], t) is Ok,
    ensures
        ({
            let (first, second) = zero_fill::split_section(image.sections[n], t)->Ok_0;
            &&& is_rest_of(image, n + 1, s, first)
            &&& first.virtual_address == t.virtual_address
            &&& second is Some ==> is_rest_of(image, n + 1, s, second->0)
        }),
{
    let original = image.sections[n];
    let (first, second) = zero_fill::split_section(original, t)->Ok_0;
    let a = t.virtual_address->0 as int;
    padding::lemma_flags(s.original_flags);
    padding::lemma_flags(t.original_flags);
    lemma_cut_more(image, n, s, a);
    if boundary::names_apart(image.sections) {
        lemma_own_zero_fill(image, n, s, a);
    }
    if second is Some {
        assert(is_cut_before(image, n + 1, s, second->0.virtual_address->0 as int));
        assert(second->0.relocations =~= Seq::empty());
    }
    assert(first.relocations =~= Seq::empty());
}

proof fn lemma_more(image: ObjModel, n: int, s: SectionModel, t: SectionModel)
    requires
        0 <= n < image.sections.len(),
        !padding::is_cut_short(image.sections[n]),
    ensures
        stays_as(image, n, s, t) ==> stays_as(image, n + 1, s, t),
        is_rest_of(image, n, s, t) ==> is_rest_of(image, n + 1, s, t),
{
    lemma_cut_more(image, n, s, s.virtual_address->0 as int);
    lemma_cut_more(image, n, s, s.virtual_address->0 + t.size);
    lemma_cut_more(image, n, s, t.virtual_address->0 as int);
}

proof fn lemma_separated_cut(image: ObjModel, n: int, r: ObjModel, o: ObjModel)
    requires
        0 <= n < image.sections.len(),
        padding::is_cut_short(image.sections[n]),
        forall|m: int|
            0 <= m < r.sections.len() ==> (#[trigger] r.sections[m]).virtual_address is Some,
        is_separated(image, n, r, o),
        zero_fill::splittable_object(image.sections[n], o),
        zero_fill::split_object(image.sections[n], o) is Ok,
    ensures
        is_separated(image, n + 1, r, zero_fill::split_object(image.sections[n], o)->Ok_0),
{
    let original = image.sections[n];
    let f = zero_fill::split_object(original, o)->Ok_0;
    let steps = zero_fill::split_sections(original, o.sections);
    let parts = outcome::collected(steps)->Ok_0;
    let count = parts.len() as int;
    let base = r.sections.len() as int;
    assert(parts.take(count) =~= parts);
    assert forall|p: int| 0 <= p < count implies #[trigger] parts[p] == zero_fill::split_section(
        original,
        o.sections[p],
    )->Ok_0 && zero_fill::split_section(original, o.sections[p]) is Ok
        && zero_fill::splittable_section(original, o.sections[p]) by {
        assert(steps[p] is Ok);
        assert(outcome::reached(steps, p));
    }
    links::lemma_tails_from(parts, count);
    assert forall|j: int| 0 <= j < base implies stays_as(
        image,
        n + 1,
        r.sections[j],
        #[trigger] f.sections[j],
    ) by {
        assert(f.sections[j] == parts[j].0);
        lemma_stays_cut(image, n, r.sections[j], o.sections[j]);
    }
    assert forall|x: int| base <= x < f.sections.len() implies comes_from(
        image,
        n + 1,
        r,
        #[trigger] f.sections[x],
    ) by {
        let p = if x < count {
            x
        } else {
            choose|p: int|
                0 <= p < count && (#[trigger] parts[p]).1 == Some(
                    zero_fill::tails(parts)[x - count],
                )
        };
        assert(x >= count ==> parts[p].1 == Some(zero_fill::tails(parts)[x - count]));
        assert(parts[p] == zero_fill::split_section(original, o.sections[p])->Ok_0);
        if p < base {
            lemma_stays_cut(image, n, r.sections[p], o.sections[p]);
            assert(is_rest_of(image, n + 1, r.sections[p], f.sections[x]));
        } else {
            assert(comes_from(image, n, r, o.sections[p]));
            let m = choose|m: int|
                0 <= m < r.sections.len() && is_rest_of(
                    image,
                    n,
                    #[trigger] r.sections[m],
                    o.sections[p],
                );
            lemma_rest_cut(image, n, r.sections[m], o.sections[p]);
            assert(is_rest_of(image, n + 1, r.sections[m], f.sections[x]));
        }
    }
    assert forall|j: int|
        0 <= j < base && (#[trigger] f.sections[j]).size < r.sections[j].size implies exists|x: int| #[trigger]
        continues(image, n + 1, r, f, j, x) by {
        assert(f.sections[j] == parts[j].0);
        lemma_stays_cut(image, n, r.sections[j], o.sections[j]);
        if parts[j].1 is Some {
            links::lemma_tail_at(parts, j, count);
            let x = count + zero_fill::tails(parts.take(j)).len();
            assert(f.sections[x] == parts[j].1->0);
            assert(continues(image, n + 1, r, f, j, x));
        } else {
            assert(o.sections[j].size < r.sections[j].size);
            let x = choose|x: int| #[trigger] continues(image, n, r, o, j, x);
            assert(f.sections[x] == parts[x].0);
            lemma_rest_cut(image, n, r.sections[j], o.sections[x]);
            assert(continues(image, n + 1, r, f, j, x));
        }
    }
}

proof fn lemma_separated_more(image: ObjModel, n: int, r: ObjModel, f: ObjModel)
    requires
        0 <= n < image.sections.len(),
        !padding::is_cut_short(image.sections[n]),
        is_separated(image, n, r, f),
    ensures
        is_separated(image, n + 1, r, f),
{
    assert forall|j: int| 0 <= j < r.sections.len() implies stays_as(
        image,
        n + 1,
        r.sections[j],
        #[trigger] f.sections[j],
    ) by {
        lemma_more(image, n, r.sections[j], f.sections[j]);
    }
    assert forall|x: int| r.sections.len() <= x < f.sections.len() implies comes_from(
        image,
        n + 1,
        r,
        #[trigger] f.sections[x],
    ) by {
        assert(comes_from(image, n, r, f.sections[x]));
        let m = choose|m: int|
            0 <= m < r.sections.len() && is_rest_of(
                image,
                n,
                #[trigger] r.sections[m],
                f.sections[x],
            );
        lemma_more(image, n, r.sections[m], f.sections[x]);
        assert(is_rest_of(image, n + 1, r.sections[m], f.sections[x]));
    }
    assert forall|j: int|
        0 <= j < r.sections.len() && (#[trigger] f.sections[j]).size < r.sections[j].size implies exists|
        x: int,
    | #[trigger] continues(image, n + 1, r, f, j, x) by {
        let x = choose|x: int| #[trigger] continues(image, n, r, f, j, x);
        lemma_more(image, n, r.sections[j], f.sections[x]);
        assert(continues(image, n + 1, r, f, j, x));
    }
}

/// Separating the zero fill of the first `n` image sections leaves in the place of each section
/// what the image stores of it, and puts the rest behind.
pub proof fn law_zero_fill_is_separated(image: ObjModel, objects: Seq<ObjModel>, n: int, i: int)
    requires
        0 <= n <= image.sections.len(),
        0 <= i < objects.len(),
        forall|m: int|
            0 <= m < objects[i].sections.len() ==> (
            #[trigger] objects[i].sections[m]).virtual_address is Some,
        zero_fill::zero_fillable(image, objects, n),
        zero_fill::zero_filled(image, objects, n) is Ok,
    ensures
        zero_fill::zero_filled(image, objects, n)->Ok_0.len() == objects.len(),
        is_separated(
            image,
            n,
            objects[i],
            zero_fill::zero_filled(image, objects, n)->Ok_0[i],
        ),
    decreases n,
{
    links::lemma_zero_filled_len(image, objects, n);
    if n > 0 {
        let before = zero_fill::zero_filled(image, objects, n - 1)->Ok_0;
        let after = zero_fill::zero_filled(image, objects, n)->Ok_0;
        let original = image.sections[n - 1];
        law_zero_fill_is_separated(image, objects, n - 1, i);
        if zero_fill::has_zero_fill(original) {
            let steps = zero_fill::split_objects(original, before);
            assert(steps[i] is Ok);
            assert(outcome::reached(steps, i));
            assert(after[i] == zero_fill::split_object(original, before[i])->Ok_0);
            assert(zero_fill::splittable_object(original, before[i]));
            lemma_separated_cut(image, n - 1, objects[i], before[i]);
        } else {
            lemma_separated_more(image, n - 1, objects[i], before[i]);
        }
    }
}

pub proof fn lemma_symbol_count(image: ObjModel, objects: Seq<ObjModel>, n: int, i: int)
    requires
        0 <= n,
        0 <= i < objects.len(),
        zero_fill::zero_filled(image, objects, n) is Ok,
    ensures
        zero_fill::zero_filled(image, objects, n)->Ok_0[i].symbols.len()
            == objects[i].symbols.len(),
    decreases n,
{
    links::lemma_zero_filled_len(image, objects, n);
    if n > 0 {
        let before = zero_fill::zero_filled(image, objects, n - 1)->Ok_0;
        let original = image.sections[n - 1];
        links::lemma_zero_filled_len(image, objects, n - 1);
        lemma_symbol_count(image, objects, n - 1, i);
        if zero_fill::has_zero_fill(original) {
            assert(zero_fill::split_objects(original, before)[i] is Ok);
        }
    }
}

/// Whether a symbol of `r` stands in no section, or in one that `f` has not cut before it.
pub open spec fn stands_before_cut(r: ObjModel, f: ObjModel, k: int) -> bool {
    match r.symbols[k].section {
        None => true,
        Some(i) => i < r.sections.len() && (f.sections[i as int].size == r.sections[i as int].size
            || r.symbols[k].address < f.sections[i as int].size),
    }
}

/// A symbol moves only with zero fill that is cut off. One that stands before that, or in no
/// section, stays as it is.
pub proof fn law_symbols_move_with_zero_fill(
    image: ObjModel,
    objects: Seq<ObjModel>,
    n: int,
    i: int,
    k: int,
)
    requires
        0 <= n <= image.sections.len(),
        0 <= i < objects.len(),
        0 <= k < objects[i].symbols.len(),
        forall|m: int|
            0 <= m < objects[i].sections.len() ==> (
            #[trigger] objects[i].sections[m]).virtual_address is Some,
        zero_fill::zero_fillable(image, objects, n),
        zero_fill::zero_filled(image, objects, n) is Ok,
        stands_before_cut(
            objects[i],
            zero_fill::zero_filled(image, objects, n)->Ok_0[i],
            k,
        ),
    ensures
        zero_fill::zero_filled(image, objects, n)->Ok_0[i].symbols.len()
            == objects[i].symbols.len(),
        zero_fill::zero_filled(image, objects, n)->Ok_0[i].symbols[k] == objects[i].symbols[k],
    decreases n,
{
    if n > 0 {
        let before = zero_fill::zero_filled(image, objects, n - 1)->Ok_0;
        let after = zero_fill::zero_filled(image, objects, n)->Ok_0;
        let original = image.sections[n - 1];
        let r = objects[i];
        law_zero_fill_is_separated(image, objects, n - 1, i);
        law_zero_fill_is_separated(image, objects, n, i);
        if zero_fill::has_zero_fill(original) {
            let steps = zero_fill::split_objects(original, before);
            assert(steps[i] is Ok);
            assert(outcome::reached(steps, i));
            let o = before[i];
            assert(after[i] == zero_fill::split_object(original, o)->Ok_0);
            assert(zero_fill::splittable_object(original, o));
            let cuts = zero_fill::split_sections(original, o.sections);
            let parts = outcome::collected(cuts)->Ok_0;
            if r.symbols[k].section is Some {
                let m = r.symbols[k].section->0 as int;
                assert(cuts[m] is Ok);
                assert(outcome::reached(cuts, m));
                assert(parts[m] == zero_fill::split_section(original, o.sections[m])->Ok_0);
                assert(zero_fill::splittable_section(original, o.sections[m]));
                assert(after[i].sections[m] == parts[m].0);
                assert(stays_as(image, n - 1, r.sections[m], o.sections[m]));
                assert(parts[m].0.size <= o.sections[m].size);
                assert(parts[m].1 is Some ==> parts[m].0.size < o.sections[m].size);
            }
            law_symbols_move_with_zero_fill(image, objects, n - 1, i, k);
            assert(after[i].symbols[k] == zero_fill::moved(parts, o.symbols[k]));
        } else {
            law_symbols_move_with_zero_fill(image, objects, n - 1, i, k);
        }
    }
}

/// Whether a symbol of `r` stands at or behind the place where `f` cut its section.
pub open spec fn stands_behind_cut(r: ObjModel, f: ObjModel, k: int) -> bool {
    match r.symbols[k].section {
        None => false,
        Some(i) => i < r.sections.len() && f.sections[i as int].size < r.sections[i as int].size
            && f.sections[i as int].size <= r.symbols[k].address,
    }
}

/// A symbol that stands at or behind the place where its section is cut leaves that section for the
/// zero fill.
pub proof fn law_symbols_behind_cuts_leave(
    image: ObjModel,
    objects: Seq<ObjModel>,
    n: int,
    i: int,
    k: int,
)
    requires
        0 <= n <= image.sections.len(),
        0 <= i < objects.len(),
        0 <= k < objects[i].symbols.len(),
        forall|m: int|
            0 <= m < objects[i].sections.len() ==> (
            #[trigger] objects[i].sections[m]).virtual_address is Some,
        zero_fill::zero_fillable(image, objects, n),
        zero_fill::zero_filled(image, objects, n) is Ok,
        zero_fill::zero_filled(image, objects, n)->Ok_0[i].sections.len() <= usize::MAX,
        stands_behind_cut(
            objects[i],
            zero_fill::zero_filled(image, objects, n)->Ok_0[i],
            k,
        ),
    ensures
        ({
            let f = zero_fill::zero_filled(image, objects, n)->Ok_0[i];
            &&& f.symbols[k].section is Some
            &&& objects[i].sections.len() <= f.symbols[k].section->0 < f.sections.len()
        }),
    decreases n,
{
    if n > 0 {
        let before = zero_fill::zero_filled(image, objects, n - 1)->Ok_0;
        let after = zero_fill::zero_filled(image, objects, n)->Ok_0;
        let original = image.sections[n - 1];
        let r = objects[i];
        law_zero_fill_is_separated(image, objects, n - 1, i);
        law_zero_fill_is_separated(image, objects, n, i);
        lemma_symbol_count(image, objects, n - 1, i);
        if zero_fill::has_zero_fill(original) {
            let steps = zero_fill::split_objects(original, before);
            assert(steps[i] is Ok);
            assert(outcome::reached(steps, i));
            let o = before[i];
            assert(after[i] == zero_fill::split_object(original, o)->Ok_0);
            assert(zero_fill::splittable_object(original, o));
            let cuts = zero_fill::split_sections(original, o.sections);
            let parts = outcome::collected(cuts)->Ok_0;
            let count = parts.len() as int;
            assert(parts.take(count) =~= parts);
            let m = r.symbols[k].section->0 as int;
            assert(cuts[m] is Ok);
            assert(outcome::reached(cuts, m));
            assert(parts[m] == zero_fill::split_section(original, o.sections[m])->Ok_0);
            assert(after[i].sections[m] == parts[m].0);
            assert(stays_as(image, n - 1, r.sections[m], o.sections[m]));
            assert(after[i].symbols[k] == zero_fill::moved(parts, o.symbols[k]));
            if stands_behind_cut(r, o, k) {
                law_symbols_behind_cuts_leave(image, objects, n - 1, i, k);
            } else {
                law_symbols_move_with_zero_fill(image, objects, n - 1, i, k);
            }
            let x = o.symbols[k].section->0 as int;
            if parts[x].1 is Some && o.symbols[k].address >= parts[x].0.size {
                links::lemma_tail_at(parts, x, count);
            }
        } else {
            law_symbols_behind_cuts_leave(image, objects, n - 1, i, k);
        }
    }
}

} // verus!

//! Laws of what each section of an object links as: its bytes, its relocations, its kind and its
//! name.
use crate::contribution;
use crate::error::ErrorModel;
use crate::laws::boundary;
use crate::laws::links;
use crate::laws::padding;
use crate::laws::zero_parts;
use crate::obj;
use crate::obj::{ObjModel, ObjReloc, ObjRelocKind, ObjSectionKind, SectionModel, SymbolModel};
use crate::outcome;
use crate::relink;
use crate::tokens;
use crate::zero_fill;
use vstd::prelude::*;

verus! {

/// Whether address `a` is one of a section.
pub open spec fn covers(section: SectionModel, a: u32) -> bool {
    section.address <= a < section.address + section.size
}

/// Whether section `k` is the first that covers address `a`.
pub open spec fn is_first_at(sections: Seq<SectionModel>, a: u32, k: int) -> bool {
    &&& 0 <= k < sections.len()
    &&& covers(sections[k], a)
    &&& forall|m: int| 0 <= m < k ==> !covers(#[trigger] sections[m], a)
}

/// Whether `a` holds the four bytes at `x` that `b` holds at `y`.
pub open spec fn same_four_bytes(a: Seq<u8>, x: int, b: Seq<u8>, y: int) -> bool {
    &&& a[x] == b[y]
    &&& a[x + 1] == b[y + 1]
    &&& a[x + 2] == b[y + 2]
    &&& a[x + 3] == b[y + 3]
}

/// Whether the bytes under a relocation of `s` are those that the image had there.
pub open spec fn is_untouched(section: SectionModel, s: SectionModel, offset: u32) -> bool {
    section.original_data is Some ==> same_four_bytes(
        s.data,
        offset as int,
        section.original_data->0,
        s.virtual_address->0 - section.address + offset,
    )
}

/// Whether relocations stand by ascending offset, no two at one.
pub open spec fn stand_in_order(relocations: Seq<(u32, ObjReloc)>) -> bool {
    forall|i: int, j: int|
        0 <= i < j < relocations.len() ==> (#[trigger] relocations[i]).0 < (
        #[trigger] relocations[j]).0
}

/// Whether the original bytes of an image section reach as far as `s`, and the bytes of `s` as far
/// as its relocations.
pub open spec fn reaches(section: SectionModel, s: SectionModel) -> bool {
    section.original_data is Some ==> {
        &&& s.virtual_address->0 - section.address + s.size <= section.original_data->0.len()
        &&& forall|i: int|
            0 <= i < s.relocations.len() ==> (#[trigger] s.relocations[i]).0 + 4 <= s.size
                && s.relocations[i].0 + 4 <= s.data.len()
    }
}

/// What is chosen of a sequence is what is marked.
proof fn lemma_selected_contains<B>(s: Seq<B>, keep: Seq<bool>, e: B)
    ensures
        outcome::selected(s, keep).contains(e) <==> outcome::is_kept(s, keep, e),
    decreases s.len(),
{
    if s.len() > 0 {
        let front = s.drop_last();
        let n = s.len() - 1;
        let inner = outcome::selected(front, keep);
        let all = outcome::selected(s, keep);
        lemma_selected_contains(front, keep, e);
        if outcome::is_kept(s, keep, e) {
            let i = choose|i: int| 0 <= i < s.len() && keep[i] && #[trigger] s[i] == e;
            if i < n {
                assert(front[i] == e);
                let k = choose|k: int| 0 <= k < inner.len() && inner[k] == e;
                assert(all[k] == e);
            } else {
                assert(all[inner.len() as int] == e);
            }
        }
        if all.contains(e) {
            let k = choose|k: int| 0 <= k < all.len() && all[k] == e;
            if k < inner.len() {
                assert(inner[k] == e);
                let i = choose|i: int| 0 <= i < front.len() && keep[i] && #[trigger] front[i] == e;
                assert(s[i] == e);
            } else {
                assert(s[n] == e);
            }
        }
    }
}

pub proof fn lemma_first_at(sections: Seq<SectionModel>, a: u32, k: int, from: int)
    requires
        is_first_at(sections, a, k),
        0 <= from <= k,
    ensures
        obj::section_at(sections, a, from) == Some(k),
    decreases k - from,
{
    if from < k {
        assert(!covers(sections[from], a));
        lemma_first_at(sections, a, k, from + 1);
    }
}

pub proof fn lemma_none_at(sections: Seq<SectionModel>, a: u32, from: int)
    requires
        0 <= from <= sections.len(),
    ensures
        match obj::section_at(sections, a, from) {
            Some(k) => {
                &&& from <= k < sections.len()
                &&& covers(sections[k], a)
                &&& forall|m: int| from <= m < k ==> !covers(#[trigger] sections[m], a)
            },
            None => forall|m: int|
                from <= m < sections.len() ==> !covers(#[trigger] sections[m], a),
        },
    decreases sections.len() - from,
{
    if from < sections.len() && !sections[from].holds(a) {
        lemma_none_at(sections, a, from + 1);
    }
}

/// A section that stands in original bytes of the image gets those. A relocation of it is kept if
/// and only if the four bytes under it are the ones that the image had there, whatever stands
/// elsewhere, and what is kept stays in order.
pub proof fn law_tokens_keep_untouched_words(
    image: ObjModel,
    s: SectionModel,
    k: int,
    e: (u32, ObjReloc),
)
    requires
        s.virtual_address is Some,
        is_first_at(image.sections, s.virtual_address->0, k),
        reaches(image.sections[k], s),
    ensures
        ({
            let r = tokens::restored_section(image, s);
            let from = s.virtual_address->0 - image.sections[k].address;
            &&& r is Ok
            &&& r->Ok_0 == (SectionModel {
                data: r->Ok_0.data,
                relocations: r->Ok_0.relocations,
                ..s
            })
            &&& image.sections[k].original_data is Some ==> {
                &&& r->Ok_0.data.len() == s.size
                &&& forall|x: int|
                    0 <= x < s.size ==> #[trigger] r->Ok_0.data[x]
                        == image.sections[k].original_data->0[from + x]
            }
            &&& image.sections[k].original_data is None ==> r->Ok_0 == s
            &&& r->Ok_0.relocations.contains(e) <==> s.relocations.contains(e) && is_untouched(
                image.sections[k],
                s,
                e.0,
            )
            &&& stand_in_order(s.relocations) ==> stand_in_order(r->Ok_0.relocations)
        }),
{
    let section = image.sections[k];
    lemma_first_at(image.sections, s.virtual_address->0, k, 0);
    if section.original_data is Some {
        let bytes = tokens::token_bytes(section, s);
        let keep = tokens::untouched(s, bytes);
        let from = s.virtual_address->0 - section.address;
        lemma_selected_contains(s.relocations, keep, e);
        assert forall|i: int| 0 <= i < s.relocations.len() implies #[trigger] keep[i]
            == is_untouched(section, s, s.relocations[i].0) by {
            lemma_same_word(s, bytes, section.original_data->0, from, s.relocations[i].0);
        }
        if s.relocations.contains(e) && is_untouched(section, s, e.0) {
            let i = choose|i: int| 0 <= i < s.relocations.len() && s.relocations[i] == e;
            assert(keep[i]);
        }
        if outcome::is_kept(s.relocations, keep, e) {
            let i = choose|i: int|
                0 <= i < s.relocations.len() && keep[i] && #[trigger] s.relocations[i] == e;
            assert(keep[i] == is_untouched(section, s, s.relocations[i].0));
        }
        if stand_in_order(s.relocations) {
            outcome::lemma_selected(s.relocations, keep);
        }
    }
}

proof fn lemma_same_word(s: SectionModel, bytes: Seq<u8>, original: Seq<u8>, from: int, offset: u32)
    requires
        0 <= from,
        from + s.size <= original.len(),
        bytes == original.subrange(from, from + s.size),
        offset + 4 <= s.size,
        offset + 4 <= s.data.len(),
    ensures
        tokens::same_word(s.data, bytes, offset) <==> same_four_bytes(
            s.data,
            offset as int,
            original,
            from + offset,
        ),
{
    let a = s.data.subrange(offset as int, offset + 4);
    let b = bytes.subrange(offset as int, offset + 4);
    let o = offset as int;
    assert(a[0] == s.data[o] && a[1] == s.data[o + 1] && a[2] == s.data[o + 2] && a[3] == s.data[o
        + 3]);
    assert(b[0] == original[from + o] && b[1] == original[from + o + 1] && b[2] == original[from + o
        + 2] && b[3] == original[from + o + 3]);
    if same_four_bytes(s.data, offset as int, original, from + offset) {
        assert forall|x: int| 0 <= x < 4 implies a[x] == b[x] by {
            assert(x == 0 || x == 1 || x == 2 || x == 3);
        }
        assert(a =~= b);
    }
}

/// Whether a relocation of section `index` is a branch to a place of that section.
pub open spec fn stays_inside(
    symbols: Seq<SymbolModel>,
    index: int,
    size: u32,
    reloc: ObjReloc,
) -> bool {
    let target = symbols[reloc.target_symbol as int];
    &&& reloc.kind == ObjRelocKind::PpcRel14 || reloc.kind == ObjRelocKind::PpcRel24
    &&& target.section is Some
    &&& target.section->0 == index
    &&& 0 <= target.address + reloc.addend
    &&& target.address + reloc.addend < size
}

/// Whether the image has a section of a name.
pub open spec fn has_named(sections: Seq<SectionModel>, name: Seq<char>) -> bool {
    exists|i: int| 0 <= i < sections.len() && #[trigger] sections[i].name == name
}

/// The name of the contribution of a section: its own where the linker knows it, and otherwise
/// with the address. Base relocations are a part of the build data, where the image has that.
pub open spec fn contributed_name(image: ObjModel, name: Seq<char>, address: u32) -> Seq<char> {
    if name == ".reloc"@ && has_named(image.sections, ".XBLD"@) {
        padding::with_dollar(".XBLD"@, address)
    } else if boundary::is_known(name) {
        name
    } else {
        padding::with_dollar(name, address)
    }
}

/// A section as a contribution needs no alignment and is named by its address. Of one that the
/// linker knows by name no relocation is kept. Of any other each is, unless it is a branch by 14 or
/// 24 bits to a place of the section itself.
pub proof fn law_only_local_branches_are_resolved(
    image: ObjModel,
    o: ObjModel,
    index: int,
    e: (u32, ObjReloc),
)
    requires
        0 <= index < o.sections.len(),
        o.sections[index].virtual_address is Some,
    ensures
        ({
            let s = o.sections[index];
            let r = contribution::finished_section(image, o, index);
            &&& r is Ok
            &&& r->Ok_0 == (SectionModel {
                align: 1,
                name: contributed_name(image, s.name, s.virtual_address->0),
                relocations: r->Ok_0.relocations,
                ..s
            })
            &&& r->Ok_0.relocations.contains(e) <==> {
                &&& s.relocations.contains(e)
                &&& !boundary::is_known(s.name)
                &&& !stays_inside(o.symbols, index, s.size, e.1)
            }
            &&& stand_in_order(s.relocations) ==> stand_in_order(r->Ok_0.relocations)
        }),
{
    let s = o.sections[index];
    let keep = contribution::open_relocations(o.symbols, index, s);
    padding::lemma_dollar(s.name, s.virtual_address->0);
    padding::lemma_dollar(".XBLD"@, s.virtual_address->0);
    assert(has_named(image.sections, ".XBLD"@) <==> contribution::has_section(
        image.sections,
        ".XBLD"@,
    )) by {
        if has_named(image.sections, ".XBLD"@) {
            let i = choose|i: int|
                0 <= i < image.sections.len() && #[trigger] image.sections[i].name == ".XBLD"@;
            assert(image.sections[i].name == ".XBLD"@);
        }
    }
    lemma_selected_contains(s.relocations, keep, e);
    if s.relocations.contains(e) && !stays_inside(o.symbols, index, s.size, e.1) {
        let i = choose|i: int| 0 <= i < s.relocations.len() && s.relocations[i] == e;
        assert(keep[i]);
    }
    if stand_in_order(s.relocations) {
        outcome::lemma_selected(s.relocations, keep);
    }
}

/// How many of the first `n` objects have sections.
pub open spec fn rank(objects: Seq<ObjModel>, n: int) -> nat
    decreases n,
{
    if n <= 0 {
        0
    } else if objects[n - 1].sections.len() > 0 {
        rank(objects, n - 1) + 1
    } else {
        rank(objects, n - 1)
    }
}

pub proof fn lemma_rank(objects: Seq<ObjModel>, keep: Seq<bool>, n: int, d: int)
    requires
        0 <= d < n <= objects.len(),
        keep.len() == objects.len(),
        forall|x: int| 0 <= x < keep.len() ==> #[trigger] keep[x] == (objects[x].sections.len() > 0),
    ensures
        outcome::selected(objects.take(n), keep).len() == rank(objects, n),
        keep[d] ==> rank(objects, d) < rank(objects, n) && outcome::selected(
            objects.take(n),
            keep,
        )[rank(objects, d) as int] == objects[d],
    decreases n,
{
    assert(objects.take(n).drop_last() =~= objects.take(n - 1));
    assert(objects.take(n).last() == objects[n - 1]);
    if d < n - 1 {
        lemma_rank(objects, keep, n - 1, d);
    } else if n > 1 {
        lemma_rank(objects, keep, n - 1, 0);
    } else {
        assert(objects.take(0) =~= Seq::empty());
        assert(outcome::selected(objects.take(0), keep).len() == 0);
        assert(rank(objects, 0) == 0);
    }
}

/// Every object that has sections links, in the order of the objects, and only those do.
pub proof fn law_objects_with_sections_link(objects: Seq<ObjModel>)
    ensures
        relink::non_empty(objects).len() == rank(objects, objects.len() as int),
        forall|d: int|
            #![trigger objects[d]]
            0 <= d < objects.len() && objects[d].sections.len() > 0 ==> rank(objects, d)
                < relink::non_empty(objects).len() && relink::non_empty(
                objects,
            )[rank(objects, d) as int] == objects[d],
{
    let keep = Seq::new(objects.len(), |i: int| objects[i].sections.len() > 0);
    let n = objects.len() as int;
    assert(objects.take(n) =~= objects);
    if n > 0 {
        lemma_rank(objects, keep, n, 0);
    }
    assert forall|d: int|
        #![trigger objects[d]]
        0 <= d < objects.len() && objects[d].sections.len() > 0 implies rank(objects, d)
        < relink::non_empty(objects).len() && relink::non_empty(
        objects,
    )[rank(objects, d) as int] == objects[d] by {
        lemma_rank(objects, keep, n, d);
    }
}

/// What the steps make of object `d`.
struct Steps {
    restored: ObjModel,
    filled: ObjModel,
    linked: ObjModel,
}

proof fn lemma_steps(image: ObjModel, defaults: Seq<ObjModel>, d: int) -> (r: Steps)
    requires
        relink::linkable(image, defaults),
        relink::contributions(image, defaults) is Ok,
        0 <= d < defaults.len(),
        defaults[d].sections.len() > 0,
    ensures
        rank(defaults, d) < relink::contributions(image, defaults)->Ok_0.len(),
        r.linked == relink::contributions(image, defaults)->Ok_0[rank(defaults, d) as int],
        tokens::restored_object(image, defaults[d]) == Ok::<_, ErrorModel>(r.restored),
        tokens::restorable_object(image, defaults[d]),
        forall|m: int|
            #![trigger r.restored.sections[m]]
            0 <= m < defaults[d].sections.len() ==> {
                &&& r.restored.sections[m].virtual_address is Some
                &&& tokens::restored_section(image, defaults[d].sections[m]) == Ok::<_, ErrorModel>(
                    r.restored.sections[m],
                )
                &&& tokens::restorable_section(image, defaults[d].sections[m])
            },
        r.restored.sections.len() == defaults[d].sections.len(),
        zero_parts::is_separated(image, image.sections.len() as int, r.restored, r.filled),
        r.filled.symbols.len() == r.restored.symbols.len(),
        forall|k: int|
            #![trigger r.filled.symbols[k]]
            0 <= k < r.restored.symbols.len() && zero_parts::stands_before_cut(
                r.restored,
                r.filled,
                k,
            ) ==> r.filled.symbols[k] == r.restored.symbols[k],
        r.filled.sections.len() <= usize::MAX ==> forall|k: int|
            #![trigger r.filled.symbols[k]]
            0 <= k < r.restored.symbols.len() && zero_parts::stands_behind_cut(
                r.restored,
                r.filled,
                k,
            ) ==> r.filled.symbols[k].section is Some && r.restored.sections.len()
                <= r.filled.symbols[k].section->0 < r.filled.sections.len(),
        contribution::finished_object(image, r.filled) == Ok::<_, ErrorModel>(r.linked),
        r.linked.sections.len() == r.filled.sections.len(),
        forall|m: int|
            #![trigger r.linked.sections[m]]
            0 <= m < r.linked.sections.len() ==> contribution::finished_section(image, r.filled, m)
                == Ok::<_, ErrorModel>(r.linked.sections[m]) && r.filled.sections[m].virtual_address is Some,
{
    let chosen = relink::non_empty(defaults);
    let n = image.sections.len() as int;
    let i = rank(defaults, d) as int;
    law_objects_with_sections_link(defaults);
    assert(chosen[i] == defaults[d]);
    let restored = tokens::restored(image, chosen)->Ok_0;
    let filled = zero_fill::zero_filled(image, restored, n)->Ok_0;
    let finished = contribution::finished(image, filled)->Ok_0;
    let all = relink::contributions(image, defaults)->Ok_0;
    assert(tokens::restored_objects(image, chosen)[i] is Ok);
    assert(outcome::reached(tokens::restored_objects(image, chosen), i));
    assert(tokens::restorable_object(image, chosen[i]));
    let r = restored[i];
    assert(tokens::restored_object(image, chosen[i]) == Ok::<_, ErrorModel>(r));
    let marks = tokens::restored_sections(image, chosen[i].sections);
    assert forall|m: int|
        #![trigger r.sections[m]]
        0 <= m < chosen[i].sections.len() implies {
        &&& r.sections[m].virtual_address is Some
        &&& tokens::restored_section(image, chosen[i].sections[m]) == Ok::<_, ErrorModel>(r.sections[m])
        &&& tokens::restorable_section(image, chosen[i].sections[m])
    } by {
        assert(marks[m] is Ok);
        assert(outcome::reached(marks, m));
    }
    links::lemma_zero_filled_len(image, restored, n);
    let f = filled[i];
    zero_parts::law_zero_fill_is_separated(image, restored, n, i);
    zero_parts::lemma_symbol_count(image, restored, n, i);
    assert forall|k: int|
        #![trigger f.symbols[k]]
        0 <= k < r.symbols.len() && zero_parts::stands_before_cut(r, f, k) implies f.symbols[k]
        == r.symbols[k] by {
        zero_parts::law_symbols_move_with_zero_fill(image, restored, n, i, k);
    }
    if f.sections.len() <= usize::MAX {
        assert forall|k: int|
            #![trigger f.symbols[k]]
            0 <= k < r.symbols.len() && zero_parts::stands_behind_cut(
                r,
                f,
                k,
            ) implies f.symbols[k].section is Some && r.sections.len() <= f.symbols[k].section->0
            < f.sections.len() by {
            zero_parts::law_symbols_behind_cuts_leave(image, restored, n, i, k);
        }
    }
    assert(contribution::finished_objects(image, filled)[i] is Ok);
    let o = finished[i];
    assert(contribution::finished_object(image, f) == Ok::<_, ErrorModel>(o));
    assert(all[i] == o);
    let ends = contribution::finished_sections(image, f);
    assert forall|m: int| #![trigger o.sections[m]] 0 <= m < o.sections.len() implies contribution::finished_section(
        image,
        f,
        m,
    ) == Ok::<_, ErrorModel>(o.sections[m]) && f.sections[m].virtual_address is Some by {
        assert(ends[m] is Ok);
    }
    Steps { restored: r, filled: f, linked: o }
}

/// The byte that a section links with at offset `x`: the original one of the image, where it has
/// that.
pub open spec fn linked_byte(section: SectionModel, s: SectionModel, x: int) -> u8 {
    if section.original_data is Some {
        section.original_data->0[s.virtual_address->0 - section.address + x]
    } else {
        s.data[x]
    }
}

/// How many bytes a section has before its zero fill is separated.
pub open spec fn bytes_before(section: SectionModel, s: SectionModel) -> int {
    if section.original_data is Some {
        s.size as int
    } else {
        s.data.len() as int
    }
}

/// Whether `t` is what the image stores of `s`, with the bytes that the image had there.
pub open spec fn links_stored(
    image: ObjModel,
    section: SectionModel,
    s: SectionModel,
    t: SectionModel,
) -> bool {
    let n = image.sections.len() as int;
    let end = s.virtual_address->0 + t.size;
    &&& t.name == contributed_name(image, s.name, s.virtual_address->0)
    &&& t.kind == s.kind
    &&& t.original_flags == s.original_flags
    &&& zero_parts::is_whole_until(image, n, s, end)
    &&& t.size == s.size || zero_parts::is_cut_at(image, n, s, end)
    &&& t.data.len() == if t.size < s.size && t.size < bytes_before(section, s) {
        t.size as int
    } else {
        bytes_before(section, s)
    }
    &&& forall|x: int|
        0 <= x < t.data.len() ==> #[trigger] t.data[x] == linked_byte(section, s, x)
}

/// Whether `t` is all of `s` as zero fill, since the image stores nothing of it.
pub open spec fn links_empty(image: ObjModel, s: SectionModel, t: SectionModel) -> bool {
    &&& t.kind == ObjSectionKind::Bss
    &&& t.data.len() == 0
    &&& t.relocations.len() == 0
    &&& t.original_flags == padding::zero_fill_flags(s.original_flags)
    &&& zero_parts::is_cut_before(
        image,
        image.sections.len() as int,
        s,
        s.virtual_address->0 as int,
    )
    &&& boundary::names_apart(image.sections) ==> {
        &&& t.name == padding::with_dollar(s.name.push('z'), s.virtual_address->0)
        &&& t.size == s.size
    }
}

/// Every section of every object links in its own place, as far as the image stores it, with the
/// bytes that the image had there. A relocation of it is one of its contribution if and only if
/// the linker does not know the section by its name, the four bytes under the relocation are those
/// that the image had there, and it is no branch by 14 or 24 bits to a place of the contribution
/// itself.
pub proof fn law_every_section_links(
    image: ObjModel,
    defaults: Seq<ObjModel>,
    d: int,
    j: int,
    k: int,
    e: (u32, ObjReloc),
)
    requires
        relink::linkable(image, defaults),
        relink::contributions(image, defaults) is Ok,
        0 <= d < defaults.len(),
        0 <= j < defaults[d].sections.len(),
        is_first_at(image.sections, defaults[d].sections[j].virtual_address->0, k),
    ensures
        ({
            let section = image.sections[k];
            let s = defaults[d].sections[j];
            let o = relink::contributions(image, defaults)->Ok_0[rank(defaults, d) as int];
            let t = o.sections[j];
            &&& rank(defaults, d) < relink::contributions(image, defaults)->Ok_0.len()
            &&& o.name == defaults[d].name
            &&& o.kind == defaults[d].kind
            &&& o.sections.len() >= defaults[d].sections.len()
            &&& s.virtual_address is Some
            &&& t == (SectionModel {
                name: t.name,
                kind: t.kind,
                size: t.size,
                data: t.data,
                relocations: t.relocations,
                original_flags: t.original_flags,
                align: 1,
                ..s
            })
            &&& t.size <= s.size
            &&& s.size > 0 ==> t.size > 0
            &&& links_stored(image, section, s, t) || links_empty(image, s, t)
            &&& t.relocations.contains(e) <==> {
                &&& s.relocations.contains(e)
                &&& is_untouched(section, s, e.0)
                &&& !boundary::is_known(s.name)
                &&& !stays_inside(o.symbols, j, t.size, e.1)
            }
            &&& stand_in_order(s.relocations) ==> stand_in_order(t.relocations)
        }),
{
    let n = image.sections.len() as int;
    let section = image.sections[k];
    let s = defaults[d].sections[j];
    let steps = lemma_steps(image, defaults, d);
    let r = steps.restored.sections[j];
    let f = steps.filled.sections[j];
    let t = steps.linked.sections[j];
    assert(tokens::restorable_section(image, s));
    lemma_first_at(image.sections, s.virtual_address->0, k, 0);
    assert(reaches(section, s));
    law_tokens_keep_untouched_words(image, s, k, e);
    assert(zero_parts::stays_as(image, n, r, f));
    law_only_local_branches_are_resolved(image, steps.filled, j, e);
    assert(zero_parts::is_cut_before(image, n, r, s.virtual_address->0 as int)
        == zero_parts::is_cut_before(image, n, s, s.virtual_address->0 as int)) by {
        lemma_same_cuts(image, n, r, s);
    }
    lemma_same_cuts(image, n, r, s);
    lemma_zero_fill_unknown(f.name);
    assert(f.relocations == r.relocations);
    if zero_parts::is_empty_fill(r, f) && r.relocations.len() == 0 && f.name != s.name {
        assert(!r.relocations.contains(e));
        assert(!t.relocations.contains(e));
        if t.relocations.len() > 0 {
            law_only_local_branches_are_resolved(image, steps.filled, j, t.relocations[0]);
            assert(t.relocations.contains(t.relocations[0]));
        }
        assert(links_empty(image, s, t));
    } else {
        assert(links_stored(image, section, s, t) || links_empty(image, s, t));
    }
}

proof fn lemma_same_cuts(image: ObjModel, n: int, r: SectionModel, s: SectionModel)
    requires
        r.name == s.name,
        n <= image.sections.len(),
    ensures
        forall|a: int| #[trigger]
            zero_parts::is_cut_before(image, n, r, a) ==> zero_parts::is_cut_before(image, n, s, a),
        forall|a: int| #[trigger]
            zero_parts::is_cut_at(image, n, r, a) ==> zero_parts::is_cut_at(image, n, s, a),
        forall|a: int| #[trigger]
            zero_parts::is_whole_until(image, n, r, a) ==> zero_parts::is_whole_until(
                image,
                n,
                s,
                a,
            ),
{
    assert forall|a: int| #[trigger] zero_parts::is_cut_before(image, n, r, a) implies zero_parts::is_cut_before(
        image,
        n,
        s,
        a,
    ) by {
        let k = choose|k: int|
            0 <= k < n && zero_parts::cuts(#[trigger] image.sections[k], r)
                && zero_parts::stored_until(image.sections[k]) <= a;
        assert(zero_parts::cuts(image.sections[k], s));
    }
    assert forall|a: int| #[trigger] zero_parts::is_cut_at(image, n, r, a) implies zero_parts::is_cut_at(
        image,
        n,
        s,
        a,
    ) by {
        let k = choose|k: int|
            0 <= k < n && zero_parts::cuts(#[trigger] image.sections[k], r)
                && zero_parts::stored_until(image.sections[k]) == a;
        assert(zero_parts::cuts(image.sections[k], s));
    }
}

/// The linker knows no section by a name of zero fill.
proof fn lemma_zero_fill_unknown(name: Seq<char>)
    ensures
        zero_parts::names_zero_fill(name) ==> !boundary::is_known(name),
{
    reveal_strlit(".edata");
    reveal_strlit(".idata");
    reveal_strlit(".reloc");
    reveal_strlit(".XEXID");
    reveal_strlit(".XBLD");
    reveal_strlit(".XBMOVIE");
}

/// Whether `t` is a contribution of the zero fill that was cut off from `s`.
pub open spec fn links_rest(image: ObjModel, s: SectionModel, t: SectionModel) -> bool {
    let n = image.sections.len() as int;
    &&& t.virtual_address is Some
    &&& t == (SectionModel {
        name: t.name,
        kind: ObjSectionKind::Bss,
        size: t.size,
        data: Seq::empty(),
        relocations: Seq::empty(),
        original_flags: padding::zero_fill_flags(s.original_flags),
        virtual_address: t.virtual_address,
        align: 1,
        ..s
    })
    &&& t.size > 0
    &&& s.virtual_address->0 < t.virtual_address->0
    &&& t.virtual_address->0 + t.size <= s.virtual_address->0 + s.size
    &&& zero_parts::is_cut_before(image, n, s, t.virtual_address->0 as int)
    &&& boundary::names_apart(image.sections) ==> {
        &&& t.name == padding::with_dollar(s.name.push('z'), t.virtual_address->0)
        &&& zero_parts::is_cut_at(image, n, s, t.virtual_address->0 as int)
        &&& t.virtual_address->0 + t.size == s.virtual_address->0 + s.size
    }
}

proof fn lemma_rest_links(
    image: ObjModel,
    s: SectionModel,
    r: SectionModel,
    filled: ObjModel,
    x: int,
)
    requires
        0 <= x < filled.sections.len(),
        r == (SectionModel { data: r.data, relocations: r.relocations, ..s }),
        zero_parts::is_rest_of(image, image.sections.len() as int, r, filled.sections[x]),
    ensures
        contribution::finished_section(image, filled, x) is Ok,
        links_rest(image, s, contribution::finished_section(image, filled, x)->Ok_0),
{
    let f = filled.sections[x];
    let t = contribution::finished_section(image, filled, x)->Ok_0;
    law_only_local_branches_are_resolved(image, filled, x, t.relocations[0]);
    lemma_same_cuts(image, image.sections.len() as int, r, s);
    lemma_zero_fill_unknown(f.name);
    assert(f.relocations.len() == 0);
    assert(t.relocations =~= Seq::empty()) by {
        if t.relocations.len() > 0 {
            law_only_local_branches_are_resolved(image, filled, x, t.relocations[0]);
            assert(t.relocations.contains(t.relocations[0]));
        }
    }
    assert(t.data =~= Seq::empty());
}

/// Behind the sections of an object stands the zero fill that was cut off from them, and nothing
/// else.
pub proof fn law_sections_behind_are_zero_fill(
    image: ObjModel,
    defaults: Seq<ObjModel>,
    d: int,
    x: int,
)
    requires
        relink::linkable(image, defaults),
        relink::contributions(image, defaults) is Ok,
        0 <= d < defaults.len(),
        defaults[d].sections.len() <= x,
        defaults[d].sections.len() > 0,
        x < relink::contributions(image, defaults)->Ok_0[rank(
            defaults,
            d,
        ) as int].sections.len(),
    ensures
        exists|m: int|
            0 <= m < defaults[d].sections.len() && links_rest(
                image,
                #[trigger] defaults[d].sections[m],
                relink::contributions(image, defaults)->Ok_0[rank(defaults, d) as int].sections[x],
            ),
{
    let n = image.sections.len() as int;
    let steps = lemma_steps(image, defaults, d);
    let t = steps.linked.sections[x];
    assert(contribution::finished_section(image, steps.filled, x) == Ok::<_, ErrorModel>(t));
    assert(zero_parts::comes_from(image, n, steps.restored, steps.filled.sections[x]));
    let m = choose|m: int|
        0 <= m < steps.restored.sections.len() && zero_parts::is_rest_of(
            image,
            n,
            #[trigger] steps.restored.sections[m],
            steps.filled.sections[x],
        );
    let s = defaults[d].sections[m];
    lemma_restored_fields(image, s);
    lemma_rest_links(image, s, steps.restored.sections[m], steps.filled, x);
}

proof fn lemma_restored_fields(image: ObjModel, s: SectionModel)
    requires
        tokens::restored_section(image, s) is Ok,
    ensures
        ({
            let r = tokens::restored_section(image, s)->Ok_0;
            r == (SectionModel { data: r.data, relocations: r.relocations, ..s })
        }),
{
}

/// Where a contribution ends before its section does, the zero fill of the section goes on behind
/// it.
pub proof fn law_zero_fill_goes_on(
    image: ObjModel,
    defaults: Seq<ObjModel>,
    d: int,
    j: int,
)
    requires
        relink::linkable(image, defaults),
        relink::contributions(image, defaults) is Ok,
        0 <= d < defaults.len(),
        0 <= j < defaults[d].sections.len(),
        relink::contributions(image, defaults)->Ok_0[rank(
            defaults,
            d,
        ) as int].sections[j].size < defaults[d].sections[j].size,
    ensures
        ({
            let o = relink::contributions(image, defaults)->Ok_0[rank(defaults, d) as int];
            exists|x: int|
                defaults[d].sections.len() <= x < o.sections.len() && links_rest(
                    image,
                    defaults[d].sections[j],
                    #[trigger] o.sections[x],
                ) && o.sections[x].virtual_address->0 == defaults[d].sections[j].virtual_address->0
                    + o.sections[j].size
        }),
{
    let n = image.sections.len() as int;
    let steps = lemma_steps(image, defaults, d);
    let s = defaults[d].sections[j];
    let r = steps.restored.sections[j];
    lemma_restored_fields(image, s);
    assert(contribution::finished_section(image, steps.filled, j) == Ok::<_, ErrorModel>(
        steps.linked.sections[j],
    ));
    assert(steps.filled.sections[j].size < r.size);
    let x = choose|x: int| #[trigger]
        zero_parts::continues(image, n, steps.restored, steps.filled, j, x);
    assert(contribution::finished_section(image, steps.filled, x) == Ok::<_, ErrorModel>(
        steps.linked.sections[x],
    ));
    lemma_rest_links(image, s, r, steps.filled, x);
    assert(links_rest(image, s, steps.linked.sections[x]));
}

/// A symbol of an object stays as it is, unless it stands in zero fill that was cut off from its
/// section. Then it goes there.
pub proof fn law_symbols_link(image: ObjModel, defaults: Seq<ObjModel>, d: int, k: int)
    requires
        relink::linkable(image, defaults),
        relink::contributions(image, defaults) is Ok,
        0 <= d < defaults.len(),
        defaults[d].sections.len() > 0,
        0 <= k < defaults[d].symbols.len(),
        relink::contributions(image, defaults)->Ok_0[rank(
            defaults,
            d,
        ) as int].sections.len() <= usize::MAX,
    ensures
        ({
            let before = defaults[d];
            let o = relink::contributions(image, defaults)->Ok_0[rank(defaults, d) as int];
            &&& o.symbols.len() == before.symbols.len()
            &&& before.symbols[k].section is None ==> o.symbols[k] == before.symbols[k]
            &&& before.symbols[k].section matches Some(j) ==> {
                j < before.sections.len() && (o.sections[j as int].size
                    == before.sections[j as int].size || before.symbols[k].address
                    < o.sections[j as int].size) ==> o.symbols[k] == before.symbols[k]
            }
            &&& before.symbols[k].section matches Some(j) ==> {
                j < before.sections.len() && o.sections[j as int].size
                    < before.sections[j as int].size && o.sections[j as int].size
                    <= before.symbols[k].address ==> o.symbols[k].section is Some
                    && before.sections.len() <= o.symbols[k].section->0 < o.sections.len()
            }
        }),
{
    let steps = lemma_steps(image, defaults, d);
    let o = steps.linked;
    if let Some(j) = defaults[d].symbols[k].section {
        if j < defaults[d].sections.len() {
            lemma_restored_fields(image, defaults[d].sections[j as int]);
            assert(steps.restored.sections[j as int].size == defaults[d].sections[j as int].size);
            assert(contribution::finished_section(image, steps.filled, j as int) == Ok::<
                _,
                ErrorModel,
            >(o.sections[j as int]));
        }
    }
    assert(o.symbols[k] == steps.filled.symbols[k]);
}

/// Every section of an object that links has an address, and that is one of some image section.
pub proof fn law_linked_sections_have_places(
    image: ObjModel,
    defaults: Seq<ObjModel>,
    d: int,
    j: int,
)
    requires
        relink::linkable(image, defaults),
        relink::contributions(image, defaults) is Ok,
        0 <= d < defaults.len(),
        0 <= j < defaults[d].sections.len(),
    ensures
        defaults[d].sections[j].virtual_address is Some,
        exists|k: int| #[trigger]
            is_first_at(image.sections, defaults[d].sections[j].virtual_address->0, k),
{
    let steps = lemma_steps(image, defaults, d);
    let s = defaults[d].sections[j];
    assert(tokens::restored_section(image, s) == Ok::<_, ErrorModel>(steps.restored.sections[j]));
    lemma_none_at(image.sections, s.virtual_address->0, 0);
    let k = obj::section_at(image.sections, s.virtual_address->0, 0)->0;
    assert(is_first_at(image.sections, s.virtual_address->0, k));
}

} // verus!

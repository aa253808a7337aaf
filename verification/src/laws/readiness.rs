//! Laws of images and objects that fit together, so that every step of linking them can be taken.
use crate::contribution;
use crate::gaps;
use crate::laws::contents;
use crate::obj;
use crate::obj::{ObjModel, ObjReloc, ObjSectionKind, SectionModel};
use crate::outcome;
use crate::relink;
use crate::tokens;
use crate::zero_fill;
use vstd::prelude::*;

verus! {

/// The largest addend that leaves room for any address.
pub const MAX_ADDEND: i64 = 0x7FFF_FFFF_0000_0000;

/// Whether an image section ends in the address space, and has its bytes unless it is zero fill.
pub open spec fn is_ready_image_section(s: SectionModel) -> bool {
    &&& s.address + s.size <= u32::MAX
    &&& s.original_raw_size matches Some(n) ==> s.address + n <= u32::MAX
    &&& s.kind != ObjSectionKind::Bss ==> s.size <= s.data.len() || (s.original_data is Some
        && s.size <= s.original_data->0.len())
}

/// Whether a relocation has one of `n` symbols as its target, and an addend that leaves room for
/// any address.
pub open spec fn is_ready_relocation(reloc: ObjReloc, n: nat) -> bool {
    reloc.target_symbol < n && reloc.addend <= MAX_ADDEND
}

/// Whether a section of an object with `n` symbols has an address, ends in the address space, and
/// has relocations that can be resolved.
pub open spec fn is_ready_section(s: SectionModel, n: nat) -> bool {
    &&& s.virtual_address is Some
    &&& s.virtual_address->0 + s.size <= u32::MAX
    &&& forall|i: int|
        0 <= i < s.relocations.len() ==> is_ready_relocation((#[trigger] s.relocations[i]).1, n)
}

pub open spec fn is_ready_object(o: ObjModel) -> bool {
    forall|j: int|
        0 <= j < o.sections.len() ==> is_ready_section(#[trigger] o.sections[j], o.symbols.len())
}

/// Whether the original bytes of the image reach as far as each section of an object that stands in
/// them, and its relocations stand in the section.
pub open spec fn covers(image: ObjModel, o: ObjModel) -> bool {
    forall|j: int, k: int|
        0 <= j < o.sections.len() && #[trigger] contents::is_first_at(
            image.sections,
            o.sections[j].virtual_address->0,
            k,
        ) && image.sections[k].original_data is Some ==> {
            let s = o.sections[j];
            &&& s.virtual_address->0 - image.sections[k].address + s.size
                <= image.sections[k].original_data->0.len()
            &&& forall|i: int|
                0 <= i < s.relocations.len() ==> (#[trigger] s.relocations[i]).0 + 4 <= s.size
                    && s.relocations[i].0 + 4 <= s.data.len()
        }
}

proof fn lemma_covers(image: ObjModel, o: ObjModel, j: int)
    requires
        is_ready_object(o),
        covers(image, o),
        0 <= j < o.sections.len(),
    ensures
        tokens::restorable_section(image, o.sections[j]),
{
    let s = o.sections[j];
    assert(is_ready_section(s, o.symbols.len()));
    contents::lemma_none_at(image.sections, s.virtual_address->0, 0);
    if let Some(k) = obj::section_at(image.sections, s.virtual_address->0, 0) {
        assert(contents::is_first_at(image.sections, o.sections[j].virtual_address->0, k));
    }
}

/// Whether an image and the objects that it was split into fit together.
pub open spec fn is_ready(image: ObjModel, defaults: Seq<ObjModel>) -> bool {
    &&& forall|k: int|
        0 <= k < image.sections.len() ==> is_ready_image_section(#[trigger] image.sections[k])
    &&& forall|i: int|
        0 <= i < defaults.len() ==> is_ready_object(#[trigger] defaults[i]) && covers(
            image,
            defaults[i],
        )
}

proof fn lemma_ready_relocations(s: Seq<(u32, ObjReloc)>, keep: Seq<bool>, n: nat)
    requires
        forall|i: int| 0 <= i < s.len() ==> is_ready_relocation((#[trigger] s[i]).1, n),
    ensures
        forall|i: int|
            0 <= i < outcome::selected(s, keep).len() ==> is_ready_relocation(
                (#[trigger] outcome::selected(s, keep)[i]).1,
                n,
            ),
{
    outcome::lemma_selected_from(s, keep);
}

proof fn lemma_restored_ready(image: ObjModel, o: ObjModel)
    requires
        is_ready_object(o),
        tokens::restored_object(image, o) is Ok,
    ensures
        is_ready_object(tokens::restored_object(image, o)->Ok_0),
{
    let r = tokens::restored_object(image, o)->Ok_0;
    let steps = tokens::restored_sections(image, o.sections);
    assert forall|j: int| 0 <= j < r.sections.len() implies is_ready_section(
        #[trigger] r.sections[j],
        r.symbols.len(),
    ) by {
        let s = o.sections[j];
        assert(steps[j] is Ok);
        assert(is_ready_section(s, o.symbols.len()));
        match obj::section_at(image.sections, s.virtual_address->0, 0) {
            Some(k) => {
                lemma_ready_relocations(
                    s.relocations,
                    tokens::untouched(s, tokens::token_bytes(image.sections[k], s)),
                    o.symbols.len(),
                );
            },
            None => {},
        }
    }
}

proof fn lemma_tails_ready(parts: Seq<(SectionModel, Option<SectionModel>)>, n: nat, m: int)
    requires
        0 <= m <= parts.len(),
        forall|i: int|
            0 <= i < m && (#[trigger] parts[i]).1 is Some ==> is_ready_section(parts[i].1->0, n),
    ensures
        forall|t: int|
            0 <= t < zero_fill::tails(parts.take(m)).len() ==> is_ready_section(
                #[trigger] zero_fill::tails(parts.take(m))[t],
                n,
            ),
    decreases m,
{
    if m > 0 {
        lemma_tails_ready(parts, n, m - 1);
        zero_fill::lemma_tails_push(parts, m - 1);
    } else {
        assert(parts.take(m) =~= Seq::empty());
    }
}

proof fn lemma_split_ready(original: SectionModel, o: ObjModel)
    requires
        original.original_raw_size is Some,
        is_ready_object(o),
        zero_fill::split_object(original, o) is Ok,
    ensures
        is_ready_object(zero_fill::split_object(original, o)->Ok_0),
{
    let r = zero_fill::split_object(original, o)->Ok_0;
    let steps = zero_fill::split_sections(original, o.sections);
    let parts = outcome::collected(steps)->Ok_0;
    let n = parts.len() as int;
    assert(parts.take(n) =~= parts);
    assert forall|i: int| 0 <= i < n implies is_ready_section(
        (#[trigger] parts[i]).0,
        o.symbols.len(),
    ) && (parts[i].1 is Some ==> is_ready_section(parts[i].1->0, o.symbols.len())) by {
        assert(steps[i] is Ok);
        assert(is_ready_section(o.sections[i], o.symbols.len()));
    }
    lemma_tails_ready(parts, o.symbols.len(), n);
    assert forall|j: int| 0 <= j < r.sections.len() implies is_ready_section(
        #[trigger] r.sections[j],
        r.symbols.len(),
    ) by {
        if j < n {
            assert(r.sections[j] == parts[j].0);
        } else {
            assert(r.sections[j] == zero_fill::tails(parts)[j - n]);
        }
    }
}

spec fn all_ready(objects: Seq<ObjModel>) -> bool {
    forall|i: int| 0 <= i < objects.len() ==> is_ready_object(#[trigger] objects[i])
}

proof fn lemma_ready_splits(original: SectionModel, o: ObjModel)
    requires
        is_ready_object(o),
    ensures
        zero_fill::splittable_object(original, o),
{
    assert forall|i: int| 0 <= i < o.sections.len() implies zero_fill::splittable_section(
        original,
        #[trigger] o.sections[i],
    ) by {
        assert(is_ready_section(o.sections[i], o.symbols.len()));
    }
}

proof fn lemma_zero_filled_ready(image: ObjModel, objects: Seq<ObjModel>, n: int)
    requires
        0 <= n <= image.sections.len(),
        all_ready(objects),
        forall|k: int|
            0 <= k < image.sections.len() ==> is_ready_image_section(#[trigger] image.sections[k]),
    ensures
        zero_fill::zero_fillable(image, objects, n),
        zero_fill::zero_filled(image, objects, n) matches Ok(filled) ==> all_ready(filled),
    decreases n,
{
    if n > 0 {
        lemma_zero_filled_ready(image, objects, n - 1);
        let original = image.sections[n - 1];
        assert(is_ready_image_section(original));
        if let Ok(before) = zero_fill::zero_filled(image, objects, n - 1) {
            assert forall|i: int| 0 <= i < before.len() implies zero_fill::splittable_object(
                original,
                #[trigger] before[i],
            ) by {
                assert(is_ready_object(before[i]));
                lemma_ready_splits(original, before[i]);
            }
            if zero_fill::has_zero_fill(original) {
                let steps = zero_fill::split_objects(original, before);
                if let Ok(filled) = zero_fill::zero_filled(image, objects, n) {
                    assert forall|i: int| 0 <= i < filled.len() implies is_ready_object(
                        #[trigger] filled[i],
                    ) by {
                        assert(steps[i] is Ok);
                        assert(is_ready_object(before[i]));
                        lemma_split_ready(original, before[i]);
                    }
                }
            }
        }
    }
}

proof fn lemma_ready_finishes(image: ObjModel, o: ObjModel)
    requires
        is_ready_object(o),
    ensures
        contribution::finishable_object(image, o),
{
    assert forall|i: int| 0 <= i < o.sections.len() implies #[trigger] contribution::finishable_section(
        o,
        i,
    ) by {
        let s = o.sections[i];
        assert(is_ready_section(s, o.symbols.len()));
        assert forall|k: int| 0 <= k < s.relocations.len() implies {
            let reloc = (#[trigger] s.relocations[k]).1;
            let target = o.symbols[reloc.target_symbol as int];
            &&& reloc.target_symbol < o.symbols.len()
            &&& i64::MIN <= target.address + reloc.addend <= i64::MAX
        } by {
            assert(is_ready_relocation(s.relocations[k].1, o.symbols.len()));
        }
    }
}

proof fn lemma_ready_pads(section: SectionModel)
    requires
        is_ready_image_section(section),
    ensures
        gaps::section_paddable(section),
{
}

/// An image and objects that fit together can be linked: every step is defined, and ends in
/// contributions or an error.
pub proof fn law_ready_inputs_link(image: ObjModel, defaults: Seq<ObjModel>)
    requires
        is_ready(image, defaults),
    ensures
        relink::linkable(image, defaults),
{
    let chosen = relink::non_empty(defaults);
    let n = image.sections.len() as int;
    outcome::lemma_selected_from(
        defaults,
        Seq::new(defaults.len(), |i: int| defaults[i].sections.len() > 0),
    );
    assert forall|i: int| 0 <= i < chosen.len() implies is_ready_object(#[trigger] chosen[i])
        && covers(image, chosen[i]) by {
        assert(defaults.contains(chosen[i]));
    }
    assert forall|i: int| 0 <= i < chosen.len() implies tokens::restorable_object(
        image,
        #[trigger] chosen[i],
    ) by {
        assert forall|j: int| 0 <= j < chosen[i].sections.len() implies tokens::restorable_section(
            image,
            #[trigger] chosen[i].sections[j],
        ) by {
            lemma_covers(image, chosen[i], j);
        }
    }
    if let Ok(restored) = tokens::restored(image, chosen) {
        assert forall|i: int| 0 <= i < restored.len() implies is_ready_object(
            #[trigger] restored[i],
        ) by {
            assert(tokens::restored_objects(image, chosen)[i] is Ok);
            assert(is_ready_object(chosen[i]));
            lemma_restored_ready(image, chosen[i]);
        }
        lemma_zero_filled_ready(image, restored, n);
        if let Ok(filled) = zero_fill::zero_filled(image, restored, n) {
            assert forall|i: int| 0 <= i < filled.len() implies contribution::finishable_object(
                image,
                #[trigger] filled[i],
            ) by {
                assert(is_ready_object(filled[i]));
                lemma_ready_finishes(image, filled[i]);
            }
            assert forall|k: int| 0 <= k < image.sections.len() implies gaps::section_paddable(
                #[trigger] image.sections[k],
            ) by {
                assert(is_ready_image_section(image.sections[k]));
                lemma_ready_pads(image.sections[k]);
            }
        }
    }
}

} // verus!

//! Laws of when an image links, and of what stands in the way where it does not.
use crate::contribution;
use crate::error::ErrorModel;
use crate::gaps;
use crate::laws::contents;
use crate::laws::links;
use crate::laws::zero_parts;
use crate::obj;
use crate::obj::{ObjModel, ObjSectionKind, SectionModel};
use crate::outcome;
use crate::relink;
use crate::tokens;
use crate::zero_fill;
use vstd::prelude::*;

verus! {

/// Whether the address of a section is one of some image section.
pub open spec fn has_place(image: ObjModel, s: SectionModel) -> bool {
    exists|k: int|
        0 <= k < image.sections.len() && contents::covers(
            #[trigger] image.sections[k],
            s.virtual_address->0,
        )
}

/// Whether every section of an object has a place.
pub open spec fn object_has_places(image: ObjModel, o: ObjModel) -> bool {
    forall|j: int| 0 <= j < o.sections.len() ==> has_place(image, #[trigger] o.sections[j])
}

pub open spec fn all_have_places(image: ObjModel, objects: Seq<ObjModel>) -> bool {
    forall|d: int| 0 <= d < objects.len() ==> object_has_places(image, #[trigger] objects[d])
}

proof fn lemma_place(image: ObjModel, s: SectionModel)
    ensures
        has_place(image, s) <==> tokens::restored_section(image, s) is Ok,
        !has_place(image, s) ==> tokens::restored_section(image, s) == Err::<
            SectionModel,
            ErrorModel,
        >(ErrorModel::NoSectionAt(s.virtual_address->0)),
{
    contents::lemma_none_at(image.sections, s.virtual_address->0, 0);
    if let Some(k) = obj::section_at(image.sections, s.virtual_address->0, 0) {
        assert(contents::covers(image.sections[k], s.virtual_address->0));
    }
}

proof fn lemma_object_places(image: ObjModel, o: ObjModel)
    requires
        object_has_places(image, o),
    ensures
        tokens::restored_object(image, o) is Ok,
{
    let steps = tokens::restored_sections(image, o.sections);
    assert forall|j: int| 0 <= j < steps.len() implies (#[trigger] steps[j]) is Ok by {
        assert(has_place(image, o.sections[j]));
        lemma_place(image, o.sections[j]);
    }
}

/// The first objects that have sections come from the first objects.
proof fn lemma_earlier(objects: Seq<ObjModel>, keep: Seq<bool>, d: int, n: int, i: int)
    requires
        keep == Seq::new(objects.len(), |i: int| objects[i].sections.len() > 0),
        0 <= d <= n <= objects.len(),
        0 <= i < outcome::selected(objects.take(d), keep).len(),
    ensures
        i < outcome::selected(objects.take(n), keep).len(),
        exists|x: int|
            0 <= x < d && #[trigger] objects[x] == outcome::selected(objects.take(n), keep)[i],
    decreases n,
{
    if d == n {
        outcome::lemma_selected_from(objects.take(d), keep);
        let front = outcome::selected(objects.take(d), keep);
        assert(objects.take(d).contains(front[i]));
        let x = choose|x: int| 0 <= x < objects.take(d).len() && objects.take(d)[x] == front[i];
        assert(objects[x] == front[i]);
    } else {
        lemma_earlier(objects, keep, d, n - 1, i);
        assert(objects.take(n).drop_last() =~= objects.take(n - 1));
    }
}

proof fn lemma_chosen_earlier(objects: Seq<ObjModel>, d: int, i: int)
    requires
        0 <= d <= objects.len(),
        0 <= i < contents::rank(objects, d),
    ensures
        i < relink::non_empty(objects).len(),
        exists|x: int| 0 <= x < d && #[trigger] objects[x] == relink::non_empty(objects)[i],
{
    let keep = Seq::new(objects.len(), |i: int| objects[i].sections.len() > 0);
    let n = objects.len() as int;
    assert(objects.take(n) =~= objects);
    if d > 0 {
        contents::lemma_rank(objects, keep, d, 0);
        lemma_earlier(objects, keep, d, n, i);
    }
}

proof fn lemma_all_places(image: ObjModel, defaults: Seq<ObjModel>)
    requires
        all_have_places(image, defaults),
    ensures
        tokens::restored(image, relink::non_empty(defaults)) is Ok,
{
    let chosen = relink::non_empty(defaults);
    let steps = tokens::restored_objects(image, chosen);
    contents::law_objects_with_sections_link(defaults);
    assert forall|i: int| 0 <= i < steps.len() implies (#[trigger] steps[i]) is Ok by {
        lemma_chosen_earlier(defaults, defaults.len() as int, i);
        let x = choose|x: int| 0 <= x < defaults.len() && #[trigger] defaults[x] == chosen[i];
        assert(object_has_places(image, defaults[x]));
        lemma_object_places(image, chosen[i]);
    }
}

/// The first section whose address is in no image section is why an image does not link.
pub proof fn law_sections_need_places(image: ObjModel, defaults: Seq<ObjModel>, d: int, j: int)
    requires
        0 <= d < defaults.len(),
        0 <= j < defaults[d].sections.len(),
        !has_place(image, defaults[d].sections[j]),
        forall|x: int| 0 <= x < d ==> object_has_places(image, #[trigger] defaults[x]),
        forall|y: int| 0 <= y < j ==> has_place(image, #[trigger] defaults[d].sections[y]),
    ensures
        relink::contributions(image, defaults) == Err::<Seq<ObjModel>, ErrorModel>(
            ErrorModel::NoSectionAt(defaults[d].sections[j].virtual_address->0),
        ),
{
    let chosen = relink::non_empty(defaults);
    let steps = tokens::restored_objects(image, chosen);
    let i = contents::rank(defaults, d) as int;
    let e = ErrorModel::NoSectionAt(defaults[d].sections[j].virtual_address->0);
    contents::law_objects_with_sections_link(defaults);
    assert(chosen[i] == defaults[d]);
    let marks = tokens::restored_sections(image, chosen[i].sections);
    assert forall|y: int| 0 <= y < j implies (#[trigger] marks[y]) is Ok by {
        assert(has_place(image, defaults[d].sections[y]));
        lemma_place(image, defaults[d].sections[y]);
    }
    lemma_place(image, defaults[d].sections[j]);
    outcome::lemma_collected_err(marks, j, e);
    assert forall|x: int| 0 <= x < i implies (#[trigger] steps[x]) is Ok by {
        lemma_chosen_earlier(defaults, d, x);
        let y = choose|y: int| 0 <= y < d && #[trigger] defaults[y] == chosen[x];
        assert(object_has_places(image, defaults[y]));
        lemma_object_places(image, chosen[x]);
    }
    outcome::lemma_collected_err(steps, i, e);
}

/// Whether image section `k` has zero fill at the place of relocation `m` of a section that reaches
/// into it.
pub open spec fn falls_in(image: ObjModel, s: SectionModel, m: int, k: int) -> bool {
    let start = s.virtual_address->0;
    &&& zero_parts::cuts(image.sections[k], s)
    &&& start + s.size > zero_parts::stored_until(image.sections[k])
    &&& start + s.relocations[m].0 >= zero_parts::stored_until(image.sections[k])
}

/// Whether relocation `m` of a section stands in zero fill.
pub open spec fn is_in_zero_fill(image: ObjModel, s: SectionModel, m: int) -> bool {
    exists|k: int| 0 <= k < image.sections.len() && #[trigger] falls_in(image, s, m, k)
}

pub open spec fn some_in_zero_fill(image: ObjModel, objects: Seq<ObjModel>) -> bool {
    exists|i: int, j: int, m: int|
        0 <= i < objects.len() && 0 <= j < objects[i].sections.len() && 0 <= m
            < objects[i].sections[j].relocations.len() && #[trigger] is_in_zero_fill(
            image,
            objects[i].sections[j],
            m,
        )
}

spec fn have_addresses(objects: Seq<ObjModel>) -> bool {
    forall|i: int, j: int|
        0 <= i < objects.len() && 0 <= j < objects[i].sections.len() ==> (
        #[trigger] objects[i].sections[j]).virtual_address is Some
}

/// Separating zero fill fails only for relocations in it.
proof fn lemma_zero_fill_fails(image: ObjModel, objects: Seq<ObjModel>, n: int)
    requires
        0 <= n <= image.sections.len(),
        have_addresses(objects),
        zero_fill::zero_fillable(image, objects, n),
        zero_fill::zero_filled(image, objects, n) is Err,
    ensures
        zero_fill::zero_filled(image, objects, n)->Err_0 == ErrorModel::RelocationInZeroFill,
        some_in_zero_fill(image, objects),
    decreases n,
{
    if n > 0 {
        if zero_fill::zero_filled(image, objects, n - 1) is Err {
            lemma_zero_fill_fails(image, objects, n - 1);
        } else {
            let before = zero_fill::zero_filled(image, objects, n - 1)->Ok_0;
            let original = image.sections[n - 1];
            links::lemma_zero_filled_len(image, objects, n - 1);
            let steps = zero_fill::split_objects(original, before);
            let i = lemma_first_failure(steps);
            assert(zero_fill::splittable_object(original, before[i]));
            let cuts = zero_fill::split_sections(original, before[i].sections);
            let p = lemma_first_failure(cuts);
            let t = before[i].sections[p];
            assert(zero_fill::splittable_section(original, t));
            outcome::lemma_collected_err(cuts, p, ErrorModel::RelocationInZeroFill);
            outcome::lemma_collected_err(steps, i, ErrorModel::RelocationInZeroFill);
            let m = choose|m: int|
                0 <= m < t.relocations.len() && (#[trigger] t.relocations[m]).0 >= zero_fill::cut(
                    original,
                    t,
                );
            assert forall|j: int| 0 <= j < objects[i].sections.len() implies (
            #[trigger] objects[i].sections[j]).virtual_address is Some by {}
            zero_parts::law_zero_fill_is_separated(image, objects, n - 1, i);
            if p < objects[i].sections.len() {
                let s = objects[i].sections[p];
                assert(zero_parts::stays_as(image, n - 1, s, t));
                assert(falls_in(image, s, m, n - 1));
                assert(is_in_zero_fill(image, s, m));
            } else {
                assert(zero_parts::comes_from(image, n - 1, objects[i], t));
            }
        }
    }
}

proof fn lemma_first_failure<B, E>(rs: Seq<Result<B, E>>) -> (k: int)
    requires
        outcome::collected(rs) is Err,
    ensures
        0 <= k < rs.len(),
        outcome::fails_at(rs, k),
{
    lemma_first_failure_from(rs, 0)
}

proof fn lemma_first_failure_from<B, E>(rs: Seq<Result<B, E>>, from: int) -> (k: int)
    requires
        0 <= from <= rs.len(),
        outcome::reached(rs, from),
        outcome::collected(rs) is Err,
    ensures
        0 <= k < rs.len(),
        outcome::fails_at(rs, k),
    decreases rs.len() - from,
{
    if from < rs.len() && rs[from] is Ok {
        assert(outcome::reached(rs, from + 1));
        lemma_first_failure_from(rs, from + 1)
    } else {
        from
    }
}

/// Where zero fill is separated, no relocation was in it.
proof fn lemma_zero_fill_clear(image: ObjModel, objects: Seq<ObjModel>)
    requires
        have_addresses(objects),
        zero_fill::zero_fillable(image, objects, image.sections.len() as int),
        zero_fill::zero_filled(image, objects, image.sections.len() as int) is Ok,
    ensures
        !some_in_zero_fill(image, objects),
{
    if some_in_zero_fill(image, objects) {
        let n = image.sections.len() as int;
        let (i, j, m) = choose|i: int, j: int, m: int|
            0 <= i < objects.len() && 0 <= j < objects[i].sections.len() && 0 <= m
                < objects[i].sections[j].relocations.len() && #[trigger] is_in_zero_fill(
                image,
                objects[i].sections[j],
                m,
            );
        let s = objects[i].sections[j];
        let k = choose|k: int| 0 <= k < image.sections.len() && #[trigger] falls_in(image, s, m, k);
        assert forall|j: int| 0 <= j < objects[i].sections.len() implies (
        #[trigger] objects[i].sections[j]).virtual_address is Some by {}
        zero_parts::law_zero_fill_is_separated(image, objects, n, i);
        let t = zero_fill::zero_filled(image, objects, n)->Ok_0[i].sections[j];
        assert(zero_parts::stays_as(image, n, s, t));
        assert(t.relocations[m] == s.relocations[m]);
        assert(zero_parts::cuts(image.sections[k], s));
    }
}

/// Whether the bytes under relocation `m` of a section are those that the image had there.
pub open spec fn is_on_image_bytes(image: ObjModel, s: SectionModel, m: int) -> bool {
    forall|k: int| #[trigger]
        contents::is_first_at(image.sections, s.virtual_address->0, k) ==> contents::is_untouched(
            image.sections[k],
            s,
            s.relocations[m].0,
        )
}

/// Whether relocation `m` of a section is one to be kept, and stands in zero fill.
pub open spec fn is_misplaced(image: ObjModel, s: SectionModel, m: int) -> bool {
    &&& 0 <= m < s.relocations.len()
    &&& is_on_image_bytes(image, s, m)
    &&& is_in_zero_fill(image, s, m)
}

/// Whether some relocation of the objects is to be kept, and stands in zero fill.
pub open spec fn some_misplaced(image: ObjModel, objects: Seq<ObjModel>) -> bool {
    exists|d: int, j: int, m: int|
        0 <= d < objects.len() && 0 <= j < objects[d].sections.len() && #[trigger] is_misplaced(
            image,
            objects[d].sections[j],
            m,
        )
}

proof fn lemma_same_place(image: ObjModel, s: SectionModel, r: SectionModel, m: int, x: int)
    requires
        r == (SectionModel { data: r.data, relocations: r.relocations, ..s }),
        s.relocations[m] == r.relocations[x],
    ensures
        is_in_zero_fill(image, s, m) <==> is_in_zero_fill(image, r, x),
{
    if is_in_zero_fill(image, s, m) {
        let k = choose|k: int| 0 <= k < image.sections.len() && #[trigger] falls_in(image, s, m, k);
        assert(falls_in(image, r, x, k));
    }
    if is_in_zero_fill(image, r, x) {
        let k = choose|k: int| 0 <= k < image.sections.len() && #[trigger] falls_in(image, r, x, k);
        assert(falls_in(image, s, m, k));
    }
}

/// The relocations of a section that are kept in zero fill are those of the restored section.
proof fn lemma_misplaced_section(image: ObjModel, s: SectionModel, r: SectionModel)
    requires
        tokens::restorable_section(image, s),
        tokens::restored_section(image, s) == Ok::<SectionModel, ErrorModel>(r),
    ensures
        (exists|m: int| #[trigger] is_misplaced(image, s, m)) <==> (exists|x: int|
            0 <= x < r.relocations.len() && #[trigger] is_in_zero_fill(image, r, x)),
{
    let a = s.virtual_address->0;
    contents::lemma_none_at(image.sections, a, 0);
    let k = obj::section_at(image.sections, a, 0)->0;
    assert(contents::is_first_at(image.sections, a, k));
    assert(contents::reaches(image.sections[k], s));
    assert forall|y: int| #[trigger] contents::is_first_at(image.sections, a, y) implies y == k by {
        contents::lemma_first_at(image.sections, a, y, 0);
    }
    contents::law_tokens_keep_untouched_words(image, s, k, s.relocations[0]);
    if exists|m: int| #[trigger] is_misplaced(image, s, m) {
        let m = choose|m: int| #[trigger] is_misplaced(image, s, m);
        let e = s.relocations[m];
        contents::law_tokens_keep_untouched_words(image, s, k, e);
        assert(s.relocations.contains(e));
        let x = choose|x: int| 0 <= x < r.relocations.len() && r.relocations[x] == e;
        lemma_same_place(image, s, r, m, x);
        assert(is_in_zero_fill(image, r, x));
    }
    if exists|x: int| 0 <= x < r.relocations.len() && #[trigger] is_in_zero_fill(image, r, x) {
        let x = choose|x: int|
            0 <= x < r.relocations.len() && #[trigger] is_in_zero_fill(image, r, x);
        let e = r.relocations[x];
        contents::law_tokens_keep_untouched_words(image, s, k, e);
        assert(r.relocations.contains(e));
        let m = choose|m: int| 0 <= m < s.relocations.len() && s.relocations[m] == e;
        lemma_same_place(image, s, r, m, x);
        assert(is_misplaced(image, s, m));
    }
}

/// What is known of the restored objects of an image where every section has a place.
proof fn lemma_restored(image: ObjModel, defaults: Seq<ObjModel>)
    requires
        relink::linkable(image, defaults),
        all_have_places(image, defaults),
    ensures
        tokens::restored(image, relink::non_empty(defaults)) is Ok,
        have_addresses(tokens::restored(image, relink::non_empty(defaults))->Ok_0),
        some_in_zero_fill(image, tokens::restored(image, relink::non_empty(defaults))->Ok_0)
            <==> some_misplaced(image, defaults),
{
    let chosen = relink::non_empty(defaults);
    lemma_all_places(image, defaults);
    let restored = tokens::restored(image, chosen)->Ok_0;
    let steps = tokens::restored_objects(image, chosen);
    assert forall|i: int, j: int|
        0 <= i < restored.len() && 0 <= j < restored[i].sections.len() implies {
        &&& (#[trigger] restored[i].sections[j]).virtual_address is Some
        &&& tokens::restorable_section(image, chosen[i].sections[j])
        &&& tokens::restored_section(image, chosen[i].sections[j]) == Ok::<_, ErrorModel>(
            restored[i].sections[j],
        )
        &&& restored[i].sections.len() == chosen[i].sections.len()
    } by {
        assert(steps[i] is Ok);
        assert(outcome::reached(steps, i));
        assert(tokens::restorable_object(image, chosen[i]));
        let marks = tokens::restored_sections(image, chosen[i].sections);
        assert(marks[j] is Ok);
        assert(outcome::reached(marks, j));
        assert(tokens::restorable_section(image, chosen[i].sections[j]));
    }
    contents::law_objects_with_sections_link(defaults);
    if some_misplaced(image, defaults) {
        let (d, j, m) = choose|d: int, j: int, m: int|
            0 <= d < defaults.len() && 0 <= j < defaults[d].sections.len()
                && #[trigger] is_misplaced(image, defaults[d].sections[j], m);
        let i = contents::rank(defaults, d) as int;
        assert(chosen[i] == defaults[d]);
        assert(steps[i] is Ok);
        let r = restored[i].sections[j];
        assert(is_misplaced(image, chosen[i].sections[j], m));
        lemma_misplaced_section(image, chosen[i].sections[j], r);
        let x = choose|x: int|
            0 <= x < r.relocations.len() && #[trigger] is_in_zero_fill(image, r, x);
        assert(is_in_zero_fill(image, restored[i].sections[j], x));
    }
    if some_in_zero_fill(image, restored) {
        let (i, j, x) = choose|i: int, j: int, x: int|
            0 <= i < restored.len() && 0 <= j < restored[i].sections.len() && 0 <= x
                < restored[i].sections[j].relocations.len() && #[trigger] is_in_zero_fill(
                image,
                restored[i].sections[j],
                x,
            );
        let r = restored[i].sections[j];
        lemma_misplaced_section(image, chosen[i].sections[j], r);
        let m = choose|m: int| #[trigger] is_misplaced(image, chosen[i].sections[j], m);
        lemma_chosen_earlier(defaults, defaults.len() as int, i);
        let d = choose|d: int| 0 <= d < defaults.len() && #[trigger] defaults[d] == chosen[i];
        assert(is_misplaced(image, defaults[d].sections[j], m));
    }
}

/// Where every section has a place, a relocation that is to be kept in zero fill is why an image
/// does not link.
pub proof fn law_relocations_need_bytes(image: ObjModel, defaults: Seq<ObjModel>)
    requires
        relink::linkable(image, defaults),
        all_have_places(image, defaults),
        some_misplaced(image, defaults),
    ensures
        relink::contributions(image, defaults) == Err::<Seq<ObjModel>, ErrorModel>(
            ErrorModel::RelocationInZeroFill,
        ),
{
    let n = image.sections.len() as int;
    lemma_restored(image, defaults);
    let restored = tokens::restored(image, relink::non_empty(defaults))->Ok_0;
    if zero_fill::zero_filled(image, restored, n) is Ok {
        lemma_zero_fill_clear(image, restored);
    } else {
        lemma_zero_fill_fails(image, restored, n);
    }
}

/// Where gap `m` of a section starts: with the section, or behind the split before it.
pub open spec fn gap_start(section: SectionModel, m: int) -> int {
    if m == 0 {
        section.address as int
    } else {
        section.splits[m - 1].1.end as int
    }
}

/// Where gap `m` of a section ends: at the next split, or with the section.
pub open spec fn gap_end(section: SectionModel, m: int) -> int {
    if m < section.splits.len() {
        section.splits[m].0 as int
    } else {
        section.address + section.size
    }
}

/// Whether split `m`, if there is one, leaves a contribution.
pub open spec fn is_concrete(section: SectionModel, m: int) -> bool {
    m < section.splits.len() ==> !section.splits[m].1.skip && !section.splits[m].1.common
}

/// Whether gap `m` is empty, without bytes, or within its section.
pub open spec fn gap_fits(section: SectionModel, m: int) -> bool {
    ||| gap_start(section, m) >= gap_end(section, m)
    ||| section.kind == ObjSectionKind::Bss
    ||| section.address <= gap_start(section, m) && gap_end(section, m) <= section.address
        + section.size
}

/// Whether gap `m` of a section can be padded.
pub open spec fn is_fillable(section: SectionModel, m: int) -> bool {
    is_concrete(section, m) && gap_fits(section, m)
}

/// Whether each gap of a section can be padded.
pub open spec fn all_fillable(section: SectionModel) -> bool {
    forall|m: int| 0 <= m <= section.splits.len() ==> #[trigger] is_fillable(section, m)
}

proof fn lemma_gap(section: SectionModel, m: int)
    requires
        0 <= m <= section.splits.len(),
        gaps::gap_defined(section, m),
    ensures
        is_fillable(section, m) <==> gaps::gap(section, m) is Ok,
        !is_concrete(section, m) ==> gaps::gap(section, m) == Err::<Option<ObjModel>, ErrorModel>(
            ErrorModel::NotConcrete(section.splits[m].1.unit),
        ),
        is_concrete(section, m) && !gap_fits(section, m) ==> gaps::gap(section, m) == Err::<
            Option<ObjModel>,
            ErrorModel,
        >(
            ErrorModel::RangeOutsideSection(
                gap_start(section, m) as u32,
                gap_end(section, m) as u32,
            ),
        ),
{
}

/// The gaps before `m` are padded where each of them can be.
proof fn lemma_gaps_reached(section: SectionModel, m: int)
    requires
        0 <= m <= section.splits.len() + 1,
        gaps::section_paddable(section),
        forall|x: int| 0 <= x < m ==> #[trigger] is_fillable(section, x),
    ensures
        outcome::reached(gaps::gaps(section), m),
    decreases m,
{
    if m > 0 {
        lemma_gaps_reached(section, m - 1);
        assert(gaps::gap_defined(section, m - 1));
        assert(is_fillable(section, m - 1));
        lemma_gap(section, m - 1);
        let steps = gaps::gaps(section);
        assert forall|j: int| 0 <= j < m implies (#[trigger] steps[j]) is Ok by {
            if j == m - 1 {
                assert(steps[j] == gaps::gap(section, j));
            }
        }
    }
}

/// The sections before `k` are padded where each of their gaps can be.
proof fn lemma_sections_reached(sections: Seq<SectionModel>, k: int)
    requires
        0 <= k <= sections.len(),
        gaps::all_paddable(sections),
        forall|x: int| 0 <= x < k ==> all_fillable(#[trigger] sections[x]),
    ensures
        outcome::reached(gaps::section_paddings(sections), k),
    decreases k,
{
    if k > 0 {
        lemma_sections_reached(sections, k - 1);
        let section = sections[k - 1];
        let steps = gaps::section_paddings(sections);
        assert(gaps::section_paddable(section));
        assert(all_fillable(section));
        lemma_gaps_reached(section, section.splits.len() as int + 1);
        assert forall|j: int| 0 <= j < k implies (#[trigger] steps[j]) is Ok by {
            if j == k - 1 {
                assert(steps[j] == gaps::section_padding(section));
            }
        }
    }
}

/// What stands before the padding of an image where every section has a place and no relocation is
/// in zero fill.
proof fn lemma_before_padding(image: ObjModel, defaults: Seq<ObjModel>)
    requires
        relink::linkable(image, defaults),
        all_have_places(image, defaults),
        !some_misplaced(image, defaults),
    ensures
        gaps::all_paddable(image.sections),
        relink::contributions(image, defaults) is Ok <==> gaps::all_padding(image.sections) is Ok,
        gaps::all_padding(image.sections) matches Err(e) ==> relink::contributions(image, defaults)
            == Err::<Seq<ObjModel>, ErrorModel>(e),
{
    let n = image.sections.len() as int;
    lemma_restored(image, defaults);
    let restored = tokens::restored(image, relink::non_empty(defaults))->Ok_0;
    if zero_fill::zero_filled(image, restored, n) is Err {
        lemma_zero_fill_fails(image, restored, n);
    }
    let filled = zero_fill::zero_filled(image, restored, n)->Ok_0;
    links::lemma_zero_filled_len(image, restored, n);
    let steps = contribution::finished_objects(image, filled);
    assert forall|i: int| 0 <= i < steps.len() implies (#[trigger] steps[i]) is Ok by {
        assert forall|j: int| 0 <= j < restored[i].sections.len() implies (
        #[trigger] restored[i].sections[j]).virtual_address is Some by {}
        zero_parts::law_zero_fill_is_separated(image, restored, n, i);
        let marks = contribution::finished_sections(image, filled[i]);
        assert forall|j: int| 0 <= j < marks.len() implies (#[trigger] marks[j]) is Ok by {
            if j < restored[i].sections.len() {
                assert(zero_parts::stays_as(
                    image,
                    n,
                    restored[i].sections[j],
                    filled[i].sections[j],
                ));
            } else {
                assert(zero_parts::comes_from(image, n, restored[i], filled[i].sections[j]));
            }
        }
    }
}

/// An image links if and only if every section of its objects has a place in it, no relocation that
/// is to be kept is in zero fill, and each gap between its splits can be padded.
pub proof fn law_when_images_link(image: ObjModel, defaults: Seq<ObjModel>)
    requires
        relink::linkable(image, defaults),
    ensures
        relink::contributions(image, defaults) is Ok <==> {
            &&& all_have_places(image, defaults)
            &&& !some_misplaced(image, defaults)
            &&& forall|k: int|
                0 <= k < image.sections.len() ==> all_fillable(#[trigger] image.sections[k])
        },
{
    if relink::contributions(image, defaults) is Ok {
        assert forall|d: int| 0 <= d < defaults.len() implies object_has_places(
            image,
            #[trigger] defaults[d],
        ) by {
            assert forall|j: int| 0 <= j < defaults[d].sections.len() implies has_place(
                image,
                #[trigger] defaults[d].sections[j],
            ) by {
                contents::law_linked_sections_have_places(image, defaults, d, j);
                let k = choose|k: int| #[trigger]
                    contents::is_first_at(
                        image.sections,
                        defaults[d].sections[j].virtual_address->0,
                        k,
                    );
                assert(contents::covers(
                    image.sections[k],
                    defaults[d].sections[j].virtual_address->0,
                ));
            }
        }
        if some_misplaced(image, defaults) {
            law_relocations_need_bytes(image, defaults);
        }
        lemma_before_padding(image, defaults);
        let steps = gaps::section_paddings(image.sections);
        assert forall|k: int| 0 <= k < image.sections.len() implies all_fillable(
            #[trigger] image.sections[k],
        ) by {
            let section = image.sections[k];
            assert(steps[k] is Ok);
            assert(outcome::reached(steps, k));
            assert(gaps::section_paddable(section));
            assert forall|m: int| 0 <= m <= section.splits.len() implies #[trigger] is_fillable(
                section,
                m,
            ) by {
                assert(gaps::gaps(section)[m] is Ok);
                assert(outcome::reached(gaps::gaps(section), m));
                assert(gaps::gap_defined(section, m));
                lemma_gap(section, m);
            }
        }
    }
    if all_have_places(image, defaults) && !some_misplaced(image, defaults) && (forall|k: int|
        0 <= k < image.sections.len() ==> all_fillable(#[trigger] image.sections[k])) {
        lemma_before_padding(image, defaults);
        lemma_sections_reached(image.sections, image.sections.len() as int);
    }
}

/// Where nothing stands in the way before, the first gap that cannot be padded is why an image does
/// not link: its split leaves no contribution, or it is not within its section.
pub proof fn law_gaps_need_bytes(image: ObjModel, defaults: Seq<ObjModel>, k: int, m: int)
    requires
        relink::linkable(image, defaults),
        all_have_places(image, defaults),
        !some_misplaced(image, defaults),
        0 <= k < image.sections.len(),
        0 <= m <= image.sections[k].splits.len(),
        !is_fillable(image.sections[k], m),
        forall|x: int| 0 <= x < k ==> all_fillable(#[trigger] image.sections[x]),
        forall|y: int| 0 <= y < m ==> #[trigger] is_fillable(image.sections[k], y),
    ensures
        !is_concrete(image.sections[k], m) ==> relink::contributions(image, defaults) == Err::<
            Seq<ObjModel>,
            ErrorModel,
        >(ErrorModel::NotConcrete(image.sections[k].splits[m].1.unit)),
        is_concrete(image.sections[k], m) ==> relink::contributions(image, defaults) == Err::<
            Seq<ObjModel>,
            ErrorModel,
        >(
            ErrorModel::RangeOutsideSection(
                gap_start(image.sections[k], m) as u32,
                gap_end(image.sections[k], m) as u32,
            ),
        ),
        0 <= gap_start(image.sections[k], m) <= u32::MAX,
        0 <= gap_end(image.sections[k], m) <= u32::MAX,
{
    let section = image.sections[k];
    lemma_before_padding(image, defaults);
    lemma_sections_reached(image.sections, k);
    assert(gaps::section_paddable(section));
    lemma_gaps_reached(section, m);
    assert(gaps::gap_defined(section, m));
    lemma_gap(section, m);
    let e = gaps::gap(section, m)->Err_0;
    outcome::lemma_collected_err(gaps::gaps(section), m, e);
    outcome::lemma_collected_err(gaps::section_paddings(image.sections), k, e);
}

} // verus!

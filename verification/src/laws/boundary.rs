//! The boundary between initialized bytes and zero fill, in all contributions of an image.
use crate::contribution;
use crate::gaps;
use crate::laws::contributions;
use crate::laws::links;
use crate::laws::padding;
use crate::laws::ranges;
use crate::laws::spelled;
use crate::laws::tiling;
use crate::obj::{ObjModel, ObjSectionKind, SectionModel};
use crate::outcome;
use crate::relink;
use crate::tokens;
use crate::zero_fill;
use vstd::prelude::*;

verus! {

/// Whether the zero fill of each section is its own: no other section has the name of one with zero
/// fill, and none with zero fill is named like the zero fill of another.
pub open spec fn names_apart(sections: Seq<SectionModel>) -> bool {
    forall|k: int, m: int|
        #![trigger sections[k], sections[m]]
        0 <= k < sections.len() && 0 <= m < sections.len() && k != m && padding::is_cut_short(
            sections[m],
        ) ==> sections[k].name != sections[m].name && (padding::is_cut_short(sections[k])
            ==> sections[m].name != sections[k].name.push('z'))
}

/// Whether `s` is a part of an image section, with its name and kind.
pub open spec fn is_part_of(section: SectionModel, s: SectionModel) -> bool {
    &&& s.virtual_address is Some
    &&& s.name == section.name
    &&& s.kind == section.kind
    &&& section.address <= s.virtual_address->0
    &&& s.virtual_address->0 + s.size <= section.address + section.size
}

pub open spec fn is_part(image: ObjModel, s: SectionModel) -> bool {
    exists|k: int| 0 <= k < image.sections.len() && is_part_of(#[trigger] image.sections[k], s)
}

/// Whether every section of every object is a part of an image section.
pub open spec fn are_parts(image: ObjModel, defaults: Seq<ObjModel>) -> bool {
    forall|i: int, j: int|
        0 <= i < defaults.len() && 0 <= j < defaults[i].sections.len() ==> is_part(
            image,
            #[trigger] defaults[i].sections[j],
        )
}

/// Whether `t` is zero fill that `original` cut off from `s`.
spec fn cut_by(original: SectionModel, s: SectionModel, t: SectionModel) -> bool {
    &&& zero_fill::has_zero_fill(original)
    &&& original.name == s.name
    &&& t.virtual_address->0 >= zero_fill::initialized_end(original)
}

spec fn was_cut(image: ObjModel, n: int, s: SectionModel, t: SectionModel) -> bool {
    exists|k: int| 0 <= k < n && #[trigger] cut_by(image.sections[k], s, t)
}

/// Whether `t` ends before the zero fill of each of the first `n` image sections that `s` is named
/// after.
spec fn ends_before(image: ObjModel, n: int, s: SectionModel, t: SectionModel) -> bool {
    forall|k: int|
        0 <= k < n && zero_fill::has_zero_fill(#[trigger] image.sections[k])
            && image.sections[k].name == s.name ==> t.virtual_address->0 + t.size
            <= zero_fill::initialized_end(image.sections[k])
}

/// What holds of a section `t` that comes from `s` by separating the zero fill of the first `n`
/// image sections.
spec fn descends(image: ObjModel, n: int, s: SectionModel, t: SectionModel) -> bool {
    &&& s.virtual_address is Some
    &&& t.virtual_address is Some
    &&& s.virtual_address->0 <= t.virtual_address->0
    &&& t.virtual_address->0 + t.size <= s.virtual_address->0 + s.size
    &&& {
        ||| t.name == s.name && t.kind == s.kind && ends_before(image, n, s, t)
        ||| {
            &&& t.kind == ObjSectionKind::Bss
            &&& t.data.len() == 0
            &&& was_cut(image, n, s, t)
            &&& names_apart(image.sections) ==> t.name == s.name.push('z')
        }
    }
}

spec fn comes_from(image: ObjModel, n: int, o: ObjModel, t: SectionModel) -> bool {
    exists|m: int| 0 <= m < o.sections.len() && #[trigger] descends(image, n, o.sections[m], t)
}

/// One more image section keeps what holds of both parts of a section.
proof fn lemma_split_descends(image: ObjModel, n: int, s: SectionModel, t: SectionModel)
    requires
        0 <= n < image.sections.len(),
        zero_fill::has_zero_fill(image.sections[n]),
        descends(image, n, s, t),
        zero_fill::splittable_section(image.sections[n], t),
        zero_fill::split_section(image.sections[n], t) is Ok,
    ensures
        ({
            let (first, second) = zero_fill::split_section(image.sections[n], t)->Ok_0;
            &&& descends(image, n + 1, s, first)
            &&& second is Some ==> descends(image, n + 1, s, second->0)
        }),
{
    let original = image.sections[n];
    let (first, second) = zero_fill::split_section(original, t)->Ok_0;
    if t.name == s.name && t.kind == s.kind && ends_before(image, n, s, t) {
        if zero_fill::reaches_zero_fill(original, t) {
            if second is Some {
                assert(ends_before(image, n + 1, s, first));
                assert(cut_by(original, s, second->0));
                assert(was_cut(image, n + 1, s, second->0));
            } else {
                assert(cut_by(original, s, first));
                assert(was_cut(image, n + 1, s, first));
            }
        } else {
            assert(ends_before(image, n + 1, s, first));
        }
    } else {
        let k = choose|k: int| 0 <= k < n && #[trigger] cut_by(image.sections[k], s, t);
        assert(cut_by(image.sections[k], s, first));
        assert(was_cut(image, n + 1, s, first));
        if second is Some {
            assert(cut_by(image.sections[k], s, second->0));
            assert(was_cut(image, n + 1, s, second->0));
        }
        if names_apart(image.sections) {
            assert(image.sections[n].name != image.sections[k].name.push('z'));
        }
    }
}

proof fn lemma_more_descends(image: ObjModel, n: int, s: SectionModel, t: SectionModel)
    requires
        0 <= n < image.sections.len(),
        !zero_fill::has_zero_fill(image.sections[n]),
        descends(image, n, s, t),
    ensures
        descends(image, n + 1, s, t),
{
    if !(t.name == s.name && t.kind == s.kind && ends_before(image, n, s, t)) {
        let k = choose|k: int| 0 <= k < n && #[trigger] cut_by(image.sections[k], s, t);
        assert(cut_by(image.sections[k], s, t));
    }
}

proof fn lemma_filled_descends(
    image: ObjModel,
    objects: Seq<ObjModel>,
    n: int,
    i: int,
    j: int,
)
    requires
        0 <= n <= image.sections.len(),
        0 <= i < objects.len(),
        forall|m: int|
            0 <= m < objects[i].sections.len() ==> (
            #[trigger] objects[i].sections[m]).virtual_address is Some,
        zero_fill::zero_fillable(image, objects, n),
        zero_fill::zero_filled(image, objects, n) is Ok,
        zero_fill::zero_filled(image, objects, n)->Ok_0.len() == objects.len(),
        0 <= j < zero_fill::zero_filled(image, objects, n)->Ok_0[i].sections.len(),
    ensures
        comes_from(
            image,
            n,
            objects[i],
            zero_fill::zero_filled(image, objects, n)->Ok_0[i].sections[j],
        ),
    decreases n,
{
    if n == 0 {
        assert(descends(image, n, objects[i].sections[j], objects[i].sections[j]));
    } else {
        let before = zero_fill::zero_filled(image, objects, n - 1)->Ok_0;
        let after = zero_fill::zero_filled(image, objects, n)->Ok_0;
        let original = image.sections[n - 1];
        if zero_fill::has_zero_fill(original) {
            let steps = zero_fill::split_objects(original, before);
            assert(steps[i] is Ok);
            assert(outcome::reached(steps, i));
            let o = before[i];
            assert(after[i] == zero_fill::split_object(original, o)->Ok_0);
            assert(zero_fill::splittable_object(original, o));
            let cuts = zero_fill::split_sections(original, o.sections);
            let parts = outcome::collected(cuts)->Ok_0;
            let count = parts.len() as int;
            assert(parts.take(count) =~= parts);
            links::lemma_tails_from(parts, count);
            let p = if j < count {
                j
            } else {
                choose|p: int|
                    0 <= p < count && (#[trigger] parts[p]).1 == Some(
                        zero_fill::tails(parts)[j - count],
                    )
            };
            assert(j >= count ==> parts[p].1 == Some(zero_fill::tails(parts)[j - count]));
            assert(cuts[p] is Ok);
            assert(outcome::reached(cuts, p));
            assert(zero_fill::splittable_section(original, o.sections[p]));
            assert(parts[p] == zero_fill::split_section(original, o.sections[p])->Ok_0);
            lemma_filled_descends(image, objects, n - 1, i, p);
            let m = choose|m: int|
                0 <= m < objects[i].sections.len() && #[trigger] descends(
                    image,
                    n - 1,
                    objects[i].sections[m],
                    o.sections[p],
                );
            lemma_split_descends(image, n - 1, objects[i].sections[m], o.sections[p]);
            assert(descends(image, n, objects[i].sections[m], after[i].sections[j]));
        } else {
            lemma_filled_descends(image, objects, n - 1, i, j);
            let t = after[i].sections[j];
            let m = choose|m: int|
                0 <= m < objects[i].sections.len() && #[trigger] descends(
                    image,
                    n - 1,
                    objects[i].sections[m],
                    t,
                );
            lemma_more_descends(image, n - 1, objects[i].sections[m], t);
        }
    }
}

/// Whether the linker knows a section by its name.
pub open spec fn is_known(name: Seq<char>) -> bool {
    ||| name == ".edata"@
    ||| name == ".idata"@
    ||| name == ".reloc"@
    ||| name == ".XEXID"@
    ||| name == ".XBLD"@
    ||| name == ".XBMOVIE"@
}

/// Where the zero fill of a section starts, or the section ends.
pub open spec fn boundary(section: SectionModel) -> int {
    if padding::is_cut_short(section) {
        section.address + section.original_raw_size->0
    } else {
        section.address + section.size
    }
}

/// Whether a contribution in an image section lies within it, and has no bytes where it reaches
/// into its zero fill.
pub open spec fn keeps_boundary(section: SectionModel, t: SectionModel) -> bool {
    &&& t.virtual_address is Some
    &&& section.address <= t.virtual_address->0
    &&& t.virtual_address->0 + t.size <= section.address + section.size
    &&& t.virtual_address->0 + t.size > boundary(section) ==> t.kind == ObjSectionKind::Bss
        && t.data.len() == 0
}

/// Whether a contribution stands on one side of the boundary, has the kind of its section before
/// it, and a name by which the linker orders the contributions of the section.
pub open spec fn keeps_order(section: SectionModel, t: SectionModel) -> bool {
    &&& t.virtual_address->0 < boundary(section) ==> t.virtual_address->0 + t.size <= boundary(
        section,
    ) && t.kind == section.kind
    &&& !is_known(section.name) ==> t.name == padding::linked_name(
        section,
        t.virtual_address->0,
    )
}

/// Contributions that come from objects.
proof fn lemma_object_section(
    image: ObjModel,
    defaults: Seq<ObjModel>,
    i: int,
    j: int,
) -> (k: int)
    requires
        relink::linkable(image, defaults),
        relink::contributions(image, defaults) is Ok,
        are_parts(image, defaults),
        0 <= i < relink::non_empty(defaults).len(),
        0 <= j < relink::contributions(image, defaults)->Ok_0[i].sections.len(),
        relink::contributions(image, defaults)->Ok_0[i].sections[j].size > 0,
    ensures
        0 <= k < image.sections.len(),
        keeps_boundary(
            image.sections[k],
            relink::contributions(image, defaults)->Ok_0[i].sections[j],
        ),
        names_apart(image.sections) ==> keeps_order(
            image.sections[k],
            relink::contributions(image, defaults)->Ok_0[i].sections[j],
        ),
{
    let chosen = relink::non_empty(defaults);
    let n = image.sections.len() as int;
    let restored = tokens::restored(image, chosen)->Ok_0;
    let filled = zero_fill::zero_filled(image, restored, n)->Ok_0;
    let finished = contribution::finished(image, filled)->Ok_0;
    let all = relink::contributions(image, defaults)->Ok_0;
    let t = all[i].sections[j];
    assert(tokens::restored_objects(image, chosen)[i] is Ok);
    assert(restored[i] == tokens::restored_object(image, chosen[i])->Ok_0);
    links::lemma_zero_filled_len(image, restored, n);
    assert(contribution::finished_objects(image, filled)[i] is Ok);
    assert(finished[i] == contribution::finished_object(image, filled[i])->Ok_0);
    assert(all[i] == finished[i]);
    let f = filled[i].sections[j];
    assert(contribution::finished_sections(image, filled[i])[j] is Ok);
    assert(t == contribution::finished_section(image, filled[i], j)->Ok_0);
    let steps = tokens::restored_sections(image, chosen[i].sections);
    outcome::lemma_selected_from(
        defaults,
        Seq::new(defaults.len(), |x: int| defaults[x].sections.len() > 0),
    );
    assert(defaults.contains(chosen[i]));
    let d = choose|d: int| 0 <= d < defaults.len() && defaults[d] == chosen[i];
    assert forall|m: int| 0 <= m < restored[i].sections.len() implies (
    #[trigger] restored[i].sections[m]).virtual_address is Some by {
        assert(steps[m] is Ok);
        assert(is_part(image, defaults[d].sections[m]));
    }
    lemma_filled_descends(image, restored, n, i, j);
    let m = choose|m: int|
        0 <= m < restored[i].sections.len() && #[trigger] descends(
            image,
            n,
            restored[i].sections[m],
            f,
        );
    let s = restored[i].sections[m];
    assert(steps[m] is Ok);
    assert(is_part(image, defaults[d].sections[m]));
    let k = choose|k: int|
        0 <= k < image.sections.len() && is_part_of(
            #[trigger] image.sections[k],
            defaults[d].sections[m],
        );
    let section = image.sections[k];
    assert(is_part_of(section, s));
    if names_apart(image.sections) {
        if !(f.name == s.name && f.kind == s.kind && ends_before(image, n, s, f)) {
            let x = choose|x: int| 0 <= x < n && #[trigger] cut_by(image.sections[x], s, f);
            assert(x == k);
        }
        padding::lemma_dollar(f.name, f.virtual_address->0);
        if !is_known(section.name) {
            lemma_zero_fill_not_opaque(section.name);
        }
    }
    k
}

/// No name of zero fill is one that the linker knows.
proof fn lemma_zero_fill_not_opaque(name: Seq<char>)
    ensures
        !contribution::is_opaque(name.push('z')),
        name.push('z') != ".reloc"@,
{
    reveal_strlit(".edata");
    reveal_strlit(".idata");
    reveal_strlit(".reloc");
    reveal_strlit(".XEXID");
    reveal_strlit(".XBLD");
    reveal_strlit(".XBMOVIE");
    let z = name.push('z');
    assert(z[z.len() - 1] == 'z');
}

/// Where an object among the padding of all sections comes from.
proof fn lemma_padding_from(
    values: Seq<Seq<ObjModel>>,
    n: int,
    p: int,
) -> (r: (int, int))
    requires
        0 <= n <= values.len(),
        0 <= p < outcome::concat(values.take(n)).len(),
    ensures
        0 <= r.0 < n,
        0 <= r.1 < values[r.0].len(),
        outcome::concat(values.take(n))[p] == values[r.0][r.1],
    decreases n,
{
    if n == 0 {
        assert(values.take(n) =~= Seq::empty());
        (0, 0)
    } else {
        assert(values.take(n).drop_last() =~= values.take(n - 1));
        let before = outcome::concat(values.take(n - 1));
        if p < before.len() {
            lemma_padding_from(values, n - 1, p)
        } else {
            (n - 1, p - before.len())
        }
    }
}

/// Contributions that fill gaps.
proof fn lemma_padding_section(
    image: ObjModel,
    defaults: Seq<ObjModel>,
    i: int,
    j: int,
) -> (k: int)
    requires
        relink::linkable(image, defaults),
        relink::contributions(image, defaults) is Ok,
        forall|k: int|
            0 <= k < image.sections.len() ==> tiling::splits_inside(#[trigger] image.sections[k]),
        relink::non_empty(defaults).len() <= i < relink::contributions(image, defaults)->Ok_0.len(),
        0 <= j < relink::contributions(image, defaults)->Ok_0[i].sections.len(),
    ensures
        0 <= k < image.sections.len(),
        keeps_boundary(
            image.sections[k],
            relink::contributions(image, defaults)->Ok_0[i].sections[j],
        ),
        keeps_order(
            image.sections[k],
            relink::contributions(image, defaults)->Ok_0[i].sections[j],
        ),
        padding::is_padding(
            image.sections[k],
            relink::contributions(image, defaults)->Ok_0[i].sections[j],
        ),
{
    let chosen = relink::non_empty(defaults);
    let n = image.sections.len() as int;
    let restored = tokens::restored(image, chosen)->Ok_0;
    let filled = zero_fill::zero_filled(image, restored, n)->Ok_0;
    let finished = contribution::finished(image, filled)->Ok_0;
    let between = gaps::all_padding(image.sections)->Ok_0;
    let all = relink::contributions(image, defaults)->Ok_0;
    links::lemma_zero_filled_len(image, restored, n);
    assert(all == finished + between);
    assert(all[i] == between[i - chosen.len()]);
    let steps = gaps::section_paddings(image.sections);
    let values = outcome::collected(steps)->Ok_0;
    assert(values.take(n) =~= values);
    let (k, e) = lemma_padding_from(values, n, i - chosen.len());
    let section = image.sections[k];
    assert(steps[k] is Ok);
    assert(outcome::reached(steps, k));
    assert(gaps::section_paddable(section));
    assert(tiling::splits_inside(section));
    let m = padding::lemma_padding_at(section, e);
    let start = gaps::cursor(section, m);
    let end = gaps::limit(section, m) as u32;
    padding::lemma_gap_sections(section, start, end);
    let t = gaps::gap_sections(section, start, end)[j];
    assert(all[i].sections[j] == t);
    if m > 0 {
        assert(section.address <= section.splits[m - 1].0);
        assert(section.splits[m - 1].0 <= section.splits[m - 1].1.end);
    }
    if m < section.splits.len() {
        assert(section.splits[m].0 <= section.splits[m].1.end);
    }
    k
}

/// A contribution that holds an address of an image section lies within that section. Where it
/// reaches into the zero fill it is of the kind for that, and has no bytes. Where the zero fill of
/// each section is its own, it stands on one side of the boundary, with the kind of the section
/// before it, and its name tells the side and the address.
pub proof fn law_links_keep_boundary(
    image: ObjModel,
    defaults: Seq<ObjModel>,
    i: int,
    j: int,
    k: int,
    a: int,
)
    requires
        relink::linkable(image, defaults),
        relink::contributions(image, defaults) is Ok,
        ranges::apart(ranges::image_ranges(image.sections)),
        forall|m: int|
            0 <= m < image.sections.len() ==> tiling::splits_inside(#[trigger] image.sections[m]),
        are_parts(image, defaults),
        0 <= i < relink::contributions(image, defaults)->Ok_0.len(),
        0 <= j < relink::contributions(image, defaults)->Ok_0[i].sections.len(),
        ranges::holds(relink::contributions(image, defaults)->Ok_0[i].sections[j], a),
        0 <= k < image.sections.len(),
        image.sections[k].address <= a < image.sections[k].address + image.sections[k].size,
    ensures
        keeps_boundary(
            image.sections[k],
            relink::contributions(image, defaults)->Ok_0[i].sections[j],
        ),
        names_apart(image.sections) ==> keeps_order(
            image.sections[k],
            relink::contributions(image, defaults)->Ok_0[i].sections[j],
        ),
{
    let whole = ranges::image_ranges(image.sections);
    let m = if i < relink::non_empty(defaults).len() {
        lemma_object_section(image, defaults, i, j)
    } else {
        lemma_padding_section(image, defaults, i, j)
    };
    assert(whole[m] == (
        image.sections[m].address as int,
        image.sections[m].address + image.sections[m].size,
    ));
    assert(whole[k] == (
        image.sections[k].address as int,
        image.sections[k].address + image.sections[k].size,
    ));
    if m != k {
        assert(ranges::disjoint(whole[m], whole[k]));
    }
}

proof fn lemma_names_rise(section: SectionModel, s: SectionModel, t: SectionModel)
    requires
        keeps_order(section, s),
        keeps_order(section, t),
        !is_known(section.name),
        s.virtual_address->0 < t.virtual_address->0,
    ensures
        spelled::sorts_first(s.name, t.name),
        s.name != t.name,
{
    let a = s.virtual_address->0;
    let b = t.virtual_address->0;
    padding::lemma_dollar(section.name, a);
    padding::lemma_dollar(section.name, b);
    padding::lemma_dollar(section.name.push('z'), a);
    padding::lemma_dollar(section.name.push('z'), b);
    spelled::law_name_order(s.name, t.name);
    contributions::law_names_sort_by_address(section.name, a, b);
    contributions::law_names_sort_by_address(section.name.push('z'), a, b);
    contributions::law_zero_fill_sorts_last(section.name, a, b);
}

/// Of two contributions that hold addresses `a` and `b` of one image section, which the linker does
/// not know by its name, the one at the lower address has the name that sorts first.
pub proof fn law_names_rise_with_addresses(
    image: ObjModel,
    defaults: Seq<ObjModel>,
    k: int,
    first: (int, int),
    second: (int, int),
    a: int,
    b: int,
)
    requires
        relink::linkable(image, defaults),
        relink::contributions(image, defaults) is Ok,
        ranges::apart(ranges::image_ranges(image.sections)),
        names_apart(image.sections),
        forall|m: int|
            0 <= m < image.sections.len() ==> tiling::splits_inside(#[trigger] image.sections[m]),
        are_parts(image, defaults),
        0 <= k < image.sections.len(),
        !is_known(image.sections[k].name),
        image.sections[k].address <= a < image.sections[k].address + image.sections[k].size,
        image.sections[k].address <= b < image.sections[k].address + image.sections[k].size,
        0 <= first.0 < relink::contributions(image, defaults)->Ok_0.len(),
        0 <= first.1 < relink::contributions(image, defaults)->Ok_0[first.0].sections.len(),
        0 <= second.0 < relink::contributions(image, defaults)->Ok_0.len(),
        0 <= second.1 < relink::contributions(image, defaults)->Ok_0[second.0].sections.len(),
        ranges::holds(
            relink::contributions(image, defaults)->Ok_0[first.0].sections[first.1],
            a,
        ),
        ranges::holds(
            relink::contributions(image, defaults)->Ok_0[second.0].sections[second.1],
            b,
        ),
        relink::contributions(image, defaults)->Ok_0[first.0].sections[first.1].virtual_address->0
            < relink::contributions(
            image,
            defaults,
        )->Ok_0[second.0].sections[second.1].virtual_address->0,
    ensures
        ({
            let all = relink::contributions(image, defaults)->Ok_0;
            let s = all[first.0].sections[first.1];
            let t = all[second.0].sections[second.1];
            spelled::sorts_first(s.name, t.name) && s.name != t.name
        }),
{
    let all = relink::contributions(image, defaults)->Ok_0;
    law_links_keep_boundary(image, defaults, first.0, first.1, k, a);
    law_links_keep_boundary(image, defaults, second.0, second.1, k, b);
    lemma_names_rise(
        image.sections[k],
        all[first.0].sections[first.1],
        all[second.0].sections[second.1],
    );
}

/// Padding among the contributions holds the original bytes of its image section before the zero
/// fill, and none in it.
pub proof fn law_links_pad_with_original_bytes(
    image: ObjModel,
    defaults: Seq<ObjModel>,
    i: int,
    j: int,
)
    requires
        relink::linkable(image, defaults),
        relink::contributions(image, defaults) is Ok,
        forall|k: int|
            0 <= k < image.sections.len() ==> tiling::splits_inside(#[trigger] image.sections[k]),
        relink::non_empty(defaults).len() <= i < relink::contributions(image, defaults)->Ok_0.len(),
        0 <= j < relink::contributions(image, defaults)->Ok_0[i].sections.len(),
    ensures
        exists|k: int|
            0 <= k < image.sections.len() && padding::is_padding(
                #[trigger] image.sections[k],
                relink::contributions(image, defaults)->Ok_0[i].sections[j],
            ),
{
    let k = lemma_padding_section(image, defaults, i, j);
    assert(padding::is_padding(
        image.sections[k],
        relink::contributions(image, defaults)->Ok_0[i].sections[j],
    ));
}

} // verus!

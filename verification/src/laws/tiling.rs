//! The contributions of an image tile it.
use crate::contribution;
use crate::gaps;
use crate::laws::links;
use crate::laws::padding;
use crate::laws::ranges;
use crate::obj::{ObjModel, SectionModel};
use crate::outcome;
use crate::relink;
use crate::tokens;
use crate::zero_fill;
use vstd::prelude::*;

verus! {

/// Whether the splits of a section are in order and within it.
pub open spec fn splits_inside(section: SectionModel) -> bool {
    &&& padding::splits_in_order(section)
    &&& forall|k: int|
        0 <= k < section.splits.len() ==> section.address <= (#[trigger] section.splits[k]).0
            && section.splits[k].1.end <= section.address + section.size
}

spec fn one_if(b: bool) -> nat {
    if b {
        1
    } else {
        0
    }
}

proof fn lemma_count_push(s: Seq<(int, int)>, x: (int, int), a: int)
    ensures
        ranges::count(s.push(x), a) == ranges::count(s, a) + one_if(x.0 <= a < x.1),
{
    assert(s.push(x).drop_last() =~= s);
    assert(s.push(x).last() == x);
}

/// Cutting the first `n` sections of an object keeps how often they hold an address.
proof fn lemma_parts_count(
    original: SectionModel,
    sections: Seq<SectionModel>,
    parts: Seq<(SectionModel, Option<SectionModel>)>,
    n: int,
    a: int,
)
    requires
        original.original_raw_size is Some,
        parts.len() == sections.len(),
        0 <= n <= parts.len(),
        forall|i: int|
            0 <= i < parts.len() ==> zero_fill::splittable_section(original, #[trigger] sections[i])
                && zero_fill::split_section(original, sections[i]) is Ok && parts[i]
                == zero_fill::split_section(original, sections[i])->Ok_0,
    ensures
        ranges::count(ranges::ranges_of(zero_fill::heads(parts.take(n))), a) + ranges::count(
            ranges::ranges_of(zero_fill::tails(parts.take(n))),
            a,
        ) == ranges::count(ranges::ranges_of(sections.take(n)), a),
    decreases n,
{
    if n == 0 {
        assert(parts.take(n) =~= Seq::empty());
        assert(zero_fill::tails(parts.take(n)) =~= Seq::empty());
    } else {
        lemma_parts_count(original, sections, parts, n - 1, a);
        let s = sections[n - 1];
        let part = parts[n - 1];
        let heads = ranges::ranges_of(zero_fill::heads(parts.take(n - 1)));
        let tails = ranges::ranges_of(zero_fill::tails(parts.take(n - 1)));
        let before = ranges::ranges_of(sections.take(n - 1));
        zero_fill::lemma_tails_push(parts, n - 1);
        assert(ranges::ranges_of(zero_fill::heads(parts.take(n))) =~= heads.push(
            ranges::range_of(part.0),
        ));
        assert(ranges::ranges_of(sections.take(n)) =~= before.push(ranges::range_of(s)));
        lemma_count_push(heads, ranges::range_of(part.0), a);
        lemma_count_push(before, ranges::range_of(s), a);
        match part.1 {
            Some(t) => {
                assert(ranges::ranges_of(zero_fill::tails(parts.take(n))) =~= tails.push(
                    ranges::range_of(t),
                ));
                lemma_count_push(tails, ranges::range_of(t), a);
            },
            None => {},
        }
    }
}

proof fn lemma_split_count(original: SectionModel, o: ObjModel, a: int)
    requires
        original.original_raw_size is Some,
        zero_fill::splittable_object(original, o),
        zero_fill::split_object(original, o) is Ok,
    ensures
        ranges::count(
            ranges::ranges_of(zero_fill::split_object(original, o)->Ok_0.sections),
            a,
        ) == ranges::count(ranges::ranges_of(o.sections), a),
{
    let r = zero_fill::split_object(original, o)->Ok_0;
    let steps = zero_fill::split_sections(original, o.sections);
    let parts = outcome::collected(steps)->Ok_0;
    let n = parts.len() as int;
    assert forall|i: int| 0 <= i < n implies zero_fill::splittable_section(
        original,
        #[trigger] o.sections[i],
    ) && zero_fill::split_section(original, o.sections[i]) is Ok && parts[i]
        == zero_fill::split_section(original, o.sections[i])->Ok_0 by {
        assert(steps[i] is Ok);
        assert(outcome::reached(steps, i));
    }
    lemma_parts_count(original, o.sections, parts, n, a);
    assert(parts.take(n) =~= parts);
    assert(o.sections.take(n) =~= o.sections);
    let heads = zero_fill::heads(parts);
    let tails = zero_fill::tails(parts);
    assert(ranges::ranges_of(r.sections) =~= ranges::ranges_of(heads) + ranges::ranges_of(tails));
    ranges::lemma_count_concat(ranges::ranges_of(heads), ranges::ranges_of(tails), a);
}

proof fn lemma_zero_filled_count(image: ObjModel, objects: Seq<ObjModel>, n: int, a: int)
    requires
        0 <= n,
        zero_fill::zero_fillable(image, objects, n),
        zero_fill::zero_filled(image, objects, n) is Ok,
    ensures
        ranges::count(
            ranges::object_ranges(zero_fill::zero_filled(image, objects, n)->Ok_0),
            a,
        ) == ranges::count(ranges::object_ranges(objects), a),
    decreases n,
{
    if n > 0 {
        lemma_zero_filled_count(image, objects, n - 1, a);
        let before = zero_fill::zero_filled(image, objects, n - 1)->Ok_0;
        let after = zero_fill::zero_filled(image, objects, n)->Ok_0;
        let original = image.sections[n - 1];
        if zero_fill::has_zero_fill(original) {
            let steps = zero_fill::split_objects(original, before);
            assert forall|i: int| 0 <= i < after.len() implies ranges::count(
                ranges::ranges_of((#[trigger] after[i]).sections),
                a,
            ) == ranges::count(ranges::ranges_of(before[i].sections), a) by {
                assert(steps[i] is Ok);
                assert(outcome::reached(steps, i));
                assert(zero_fill::splittable_object(original, before[i]));
                lemma_split_count(original, before[i], a);
            }
            ranges::lemma_count_objects(after, before, a);
        }
    }
}

proof fn lemma_restored_count(image: ObjModel, objects: Seq<ObjModel>, a: int)
    requires
        tokens::restored(image, objects) is Ok,
    ensures
        ranges::count(ranges::object_ranges(tokens::restored(image, objects)->Ok_0), a)
            == ranges::count(ranges::object_ranges(objects), a),
{
    let r = tokens::restored(image, objects)->Ok_0;
    assert forall|i: int| 0 <= i < r.len() implies ranges::count(
        ranges::ranges_of((#[trigger] r[i]).sections),
        a,
    ) == ranges::count(ranges::ranges_of(objects[i].sections), a) by {
        assert(tokens::restored_objects(image, objects)[i] is Ok);
        let steps = tokens::restored_sections(image, objects[i].sections);
        assert forall|j: int| 0 <= j < steps.len() implies (#[trigger] steps[j]) is Ok by {}
        assert(ranges::ranges_of(r[i].sections) =~= ranges::ranges_of(objects[i].sections)) by {
            assert forall|j: int| 0 <= j < r[i].sections.len() implies ranges::range_of(
                #[trigger] r[i].sections[j],
            ) == ranges::range_of(objects[i].sections[j]) by {
                assert(steps[j] is Ok);
            }
        }
    }
    ranges::lemma_count_objects(r, objects, a);
}

proof fn lemma_finished_count(image: ObjModel, objects: Seq<ObjModel>, a: int)
    requires
        contribution::finished(image, objects) is Ok,
    ensures
        ranges::count(ranges::object_ranges(contribution::finished(image, objects)->Ok_0), a)
            == ranges::count(ranges::object_ranges(objects), a),
{
    let r = contribution::finished(image, objects)->Ok_0;
    assert forall|i: int| 0 <= i < r.len() implies ranges::count(
        ranges::ranges_of((#[trigger] r[i]).sections),
        a,
    ) == ranges::count(ranges::ranges_of(objects[i].sections), a) by {
        assert(contribution::finished_objects(image, objects)[i] is Ok);
        let steps = contribution::finished_sections(image, objects[i]);
        assert(ranges::ranges_of(r[i].sections) =~= ranges::ranges_of(objects[i].sections)) by {
            assert forall|j: int| 0 <= j < r[i].sections.len() implies ranges::range_of(
                #[trigger] r[i].sections[j],
            ) == ranges::range_of(objects[i].sections[j]) by {
                assert(steps[j] is Ok);
            }
        }
    }
    ranges::lemma_count_objects(r, objects, a);
}

/// Objects without sections hold no address.
proof fn lemma_non_empty_ranges(objects: Seq<ObjModel>, keep: Seq<bool>)
    requires
        keep.len() >= objects.len(),
        forall|i: int|
            0 <= i < objects.len() ==> #[trigger] keep[i] == (objects[i].sections.len() > 0),
    ensures
        ranges::object_ranges(outcome::selected(objects, keep)) == ranges::object_ranges(objects),
    decreases objects.len(),
{
    if objects.len() > 0 {
        let rest = objects.drop_last();
        let last = objects.len() - 1;
        lemma_non_empty_ranges(rest, keep);
        if keep[last] {
            assert(outcome::selected(objects, keep).drop_last() =~= outcome::selected(rest, keep));
        } else {
            assert(ranges::object_ranges(objects) =~= ranges::object_ranges(rest));
        }
    }
}

/// The first `k` gaps of a section, with the splits behind them, hold the addresses up to the end
/// of split `k - 1` once.
proof fn lemma_gaps_count(
    section: SectionModel,
    values: Seq<Option<ObjModel>>,
    k: int,
    a: int,
)
    requires
        splits_inside(section),
        gaps::section_paddable(section),
        outcome::collected(gaps::gaps(section)) is Ok,
        values == outcome::collected(gaps::gaps(section))->Ok_0,
        0 <= k <= section.splits.len(),
    ensures
        section.address <= gaps::cursor(section, k) <= gaps::limit(section, k),
        ranges::count(ranges::object_ranges(outcome::present(values.take(k))), a) + ranges::count(
            ranges::split_ranges(section).take(k),
            a,
        ) == one_if(section.address <= a < gaps::cursor(section, k)),
    decreases k,
{
    if k == 0 {
        assert(values.take(k) =~= Seq::empty());
        assert(ranges::split_ranges(section).take(k) =~= Seq::empty());
    } else {
        lemma_gaps_count(section, values, k - 1, a);
        lemma_gap_count(section, values, k - 1, a);
        let splits = ranges::split_ranges(section);
        assert(splits.take(k) =~= splits.take(k - 1).push(splits[k - 1]));
        lemma_count_push(splits.take(k - 1), splits[k - 1], a);
        assert(section.splits[k - 1].0 <= section.splits[k - 1].1.end);
        if k < section.splits.len() {
            assert(section.splits[k - 1].1.end <= section.splits[k].0);
        }
    }
}

/// Gap `k` adds the addresses from the split before it to the next.
proof fn lemma_gap_count(
    section: SectionModel,
    values: Seq<Option<ObjModel>>,
    k: int,
    a: int,
)
    requires
        gaps::section_paddable(section),
        outcome::collected(gaps::gaps(section)) is Ok,
        values == outcome::collected(gaps::gaps(section))->Ok_0,
        0 <= k <= section.splits.len(),
    ensures
        values.len() == section.splits.len() + 1,
        ranges::count(ranges::object_ranges(outcome::present(values.take(k + 1))), a)
            == ranges::count(ranges::object_ranges(outcome::present(values.take(k))), a) + one_if(
            gaps::cursor(section, k) <= a < gaps::limit(section, k),
        ),
{
    let steps = gaps::gaps(section);
    assert(steps[k] is Ok);
    assert(outcome::reached(steps, k));
    assert(gaps::gap_defined(section, k));
    let before = outcome::present(values.take(k));
    let after = outcome::present(values.take(k + 1));
    assert(values.take(k + 1).drop_last() =~= values.take(k));
    assert(values.take(k + 1).last() == values[k]);
    let start = gaps::cursor(section, k);
    if start < gaps::limit(section, k) {
        let end = gaps::limit(section, k) as u32;
        let o = gaps::gap_object(section, start, end);
        assert(values[k] == Some(o));
        assert(after == before.push(o));
        assert(after.drop_last() =~= before);
        padding::lemma_gap_sections(section, start, end);
        ranges::lemma_count_concat(
            ranges::object_ranges(before),
            ranges::ranges_of(o.sections),
            a,
        );
    } else {
        assert(values[k] is None);
    }
}

/// The splits and the padding of a section hold each of its addresses once, and no other.
proof fn lemma_section_count(section: SectionModel, a: int)
    requires
        splits_inside(section),
        gaps::section_paddable(section),
        gaps::section_padding(section) is Ok,
    ensures
        ranges::count(ranges::object_ranges(gaps::section_padding(section)->Ok_0), a)
            + ranges::count(ranges::split_ranges(section), a) == one_if(
            section.address <= a < section.address + section.size,
        ),
{
    let values = outcome::collected(gaps::gaps(section))->Ok_0;
    let n = section.splits.len() as int;
    lemma_gaps_count(section, values, n, a);
    lemma_gap_count(section, values, n, a);
    assert(values.take(n + 1) =~= values);
    assert(ranges::split_ranges(section).take(n) =~= ranges::split_ranges(section));
}

/// The splits and the padding of the first `n` sections hold their addresses as the sections do.
proof fn lemma_image_count(
    sections: Seq<SectionModel>,
    values: Seq<Seq<ObjModel>>,
    n: int,
    a: int,
)
    requires
        0 <= n <= sections.len(),
        values.len() == sections.len(),
        forall|k: int|
            0 <= k < sections.len() ==> splits_inside(#[trigger] sections[k])
                && gaps::section_paddable(sections[k]) && gaps::section_padding(sections[k]) is Ok
                && values[k] == gaps::section_padding(sections[k])->Ok_0,
    ensures
        ranges::count(ranges::object_ranges(outcome::concat(values.take(n))), a) + ranges::count(
            ranges::all_split_ranges(sections.take(n)),
            a,
        ) == ranges::count(ranges::image_ranges(sections.take(n)), a),
    decreases n,
{
    if n == 0 {
        assert(values.take(n) =~= Seq::empty());
        assert(sections.take(n) =~= Seq::empty());
    } else {
        let section = sections[n - 1];
        lemma_image_count(sections, values, n - 1, a);
        lemma_section_count(section, a);
        assert(values.take(n).drop_last() =~= values.take(n - 1));
        assert(sections.take(n).drop_last() =~= sections.take(n - 1));
        assert(sections.take(n).last() == section);
        let before = outcome::concat(values.take(n - 1));
        ranges::lemma_object_ranges_concat(before, values[n - 1]);
        ranges::lemma_count_concat(
            ranges::object_ranges(before),
            ranges::object_ranges(values[n - 1]),
            a,
        );
        ranges::lemma_count_concat(
            ranges::all_split_ranges(sections.take(n - 1)),
            ranges::split_ranges(section),
            a,
        );
        let image = ranges::image_ranges(sections.take(n - 1));
        let range = (section.address as int, section.address + section.size);
        assert(ranges::image_ranges(sections.take(n)) =~= image.push(range));
        lemma_count_push(image, range, a);
    }
}

/// Contributions hold an address as often as the image sections do, where the sections of the
/// objects are the splits, one for one.
proof fn lemma_contributions_count(image: ObjModel, defaults: Seq<ObjModel>, a: int)
    requires
        relink::linkable(image, defaults),
        relink::contributions(image, defaults) is Ok,
        forall|k: int| 0 <= k < image.sections.len() ==> splits_inside(#[trigger] image.sections[k]),
        ranges::object_ranges(defaults).to_multiset() == ranges::all_split_ranges(
            image.sections,
        ).to_multiset(),
    ensures
        ranges::count(
            ranges::object_ranges(relink::contributions(image, defaults)->Ok_0),
            a,
        ) == ranges::count(ranges::image_ranges(image.sections), a),
{
    let chosen = relink::non_empty(defaults);
    let n = image.sections.len() as int;
    let restored = tokens::restored(image, chosen)->Ok_0;
    let filled = zero_fill::zero_filled(image, restored, n)->Ok_0;
    let finished = contribution::finished(image, filled)->Ok_0;
    let between = gaps::all_padding(image.sections)->Ok_0;
    lemma_non_empty_ranges(
        defaults,
        Seq::new(defaults.len(), |i: int| defaults[i].sections.len() > 0),
    );
    lemma_restored_count(image, chosen, a);
    lemma_zero_filled_count(image, restored, n, a);
    lemma_finished_count(image, filled, a);
    ranges::lemma_count_multiset(
        ranges::object_ranges(defaults),
        ranges::all_split_ranges(image.sections),
        a,
    );
    let steps = gaps::section_paddings(image.sections);
    let values = outcome::collected(steps)->Ok_0;
    assert forall|k: int| 0 <= k < image.sections.len() implies splits_inside(
        #[trigger] image.sections[k],
    ) && gaps::section_paddable(image.sections[k]) && gaps::section_padding(
        image.sections[k],
    ) is Ok && values[k] == gaps::section_padding(image.sections[k])->Ok_0 by {
        assert(steps[k] is Ok);
        assert(outcome::reached(steps, k));
    }
    lemma_image_count(image.sections, values, n, a);
    assert(values.take(n) =~= values);
    assert(image.sections.take(n) =~= image.sections);
    ranges::lemma_object_ranges_concat(finished, between);
    ranges::lemma_count_concat(
        ranges::object_ranges(finished),
        ranges::object_ranges(between),
        a,
    );
}

/// Contributions tile the image. Where the splits of each section are in order and within it, and
/// the sections of the objects are the splits, one for one, the link objects hold exactly the
/// addresses of the image sections; and where the image sections are apart, so are the
/// contributions.
pub proof fn law_contributions_tile_image(
    image: ObjModel,
    defaults: Seq<ObjModel>,
    linked: Seq<ObjModel>,
)
    requires
        relink::linkable(image, defaults),
        relink::contributions(image, defaults) is Ok,
        relink::is_address_sort(relink::contributions(image, defaults)->Ok_0, linked),
        forall|k: int| 0 <= k < image.sections.len() ==> splits_inside(#[trigger] image.sections[k]),
        ranges::object_ranges(defaults).to_multiset() == ranges::all_split_ranges(
            image.sections,
        ).to_multiset(),
    ensures
        forall|a: int| #[trigger]
            ranges::in_some(ranges::object_ranges(linked), a) <==> ranges::in_some(
                ranges::image_ranges(image.sections),
                a,
            ),
        ranges::apart(ranges::image_ranges(image.sections)) ==> ranges::apart(
            ranges::object_ranges(linked),
        ),
{
    let all = relink::contributions(image, defaults)->Ok_0;
    let whole = ranges::image_ranges(image.sections);
    let tiles = ranges::object_ranges(linked);
    links::law_sorting_keeps_objects(all, linked);
    assert forall|a: int| #[trigger] ranges::count(tiles, a) == ranges::count(whole, a) by {
        lemma_contributions_count(image, defaults, a);
        ranges::lemma_count_object_multiset(all, linked, a);
    }
    assert forall|a: int| #[trigger] ranges::in_some(tiles, a) <==> ranges::in_some(whole, a) by {
        ranges::lemma_count_in(tiles, a);
        ranges::lemma_count_in(whole, a);
        assert(ranges::count(tiles, a) == ranges::count(whole, a));
    }
    if ranges::apart(whole) {
        assert forall|a: int| #[trigger] ranges::count(tiles, a) <= 1 by {
            ranges::lemma_apart_count(whole, a);
            assert(ranges::count(tiles, a) == ranges::count(whole, a));
        }
        ranges::lemma_count_apart(tiles);
    }
}

} // verus!

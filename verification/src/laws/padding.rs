//! Laws of the padding between splits.
use crate::contribution;
use crate::error::ErrorModel;
use crate::gaps;
use crate::laws::ranges;
use crate::laws::spelled;
use crate::obj;
use crate::obj::{ObjKind, ObjModel, ObjSectionKind, SectionModel};
use crate::outcome;
use crate::zero_fill;
use vstd::prelude::*;

verus! {

/// Whether a split of the section holds address `a`.
pub open spec fn in_split(section: SectionModel, a: int) -> bool {
    exists|k: int|
        0 <= k < section.splits.len() && (#[trigger] section.splits[k]).0 <= a
            < section.splits[k].1.end
}

/// Whether the image stores less of a section than its size.
pub open spec fn is_cut_short(section: SectionModel) -> bool {
    section.original_raw_size is Some && section.original_raw_size->0 < section.size
}

/// Whether address `a` of a section is in its zero fill: past what the image stores of it.
pub open spec fn is_zero_fill(section: SectionModel, a: int) -> bool {
    is_cut_short(section) && a >= section.address + section.original_raw_size->0
}

/// A name with a dollar sign and an address behind it.
pub open spec fn with_dollar(name: Seq<char>, address: u32) -> Seq<char> {
    name + seq!['$'] + spelled::address_text(address)
}

/// The name of a contribution of a section at `address`: zero fill is told by the letter behind the
/// name of the section.
pub open spec fn linked_name(section: SectionModel, address: u32) -> Seq<char> {
    if is_zero_fill(section, address as int) {
        with_dollar(section.name.push('z'), address)
    } else {
        with_dollar(section.name, address)
    }
}

/// The byte of a section that goes into its padding: the original one, as far as the image has it.
pub open spec fn stored_byte(section: SectionModel, x: int) -> u8 {
    if section.original_data is Some && x < section.original_data->0.len() {
        section.original_data->0[x]
    } else {
        section.data[x]
    }
}

/// Section flags that say uninitialized in place of initialized.
pub open spec fn zero_fill_flags(flags: Option<u32>) -> Option<u32> {
    match flags {
        Some(f) => Some((f & 0xFFFF_FFBF) | 0x80),
        None => None,
    }
}

/// Whether a section is no more than what it contributes.
pub open spec fn has_only_contents(t: SectionModel) -> bool {
    &&& t.address == 0
    &&& t.splits.len() == 0
    &&& t.original_data is None
    &&& t.original_raw_size is None
}

/// Whether `t` is padding of a section: in its zero fill without bytes, and before it with the
/// kind, the flags and the original bytes of the section. It has no relocations and needs no
/// alignment.
pub open spec fn is_padding(section: SectionModel, t: SectionModel) -> bool {
    &&& t.virtual_address is Some
    &&& t.size > 0
    &&& t.align == 1
    &&& t.relocations.len() == 0
    &&& has_only_contents(t)
    &&& t.name == linked_name(section, t.virtual_address->0)
    &&& if is_zero_fill(section, t.virtual_address->0 as int) {
        &&& t.kind == ObjSectionKind::Bss
        &&& t.data.len() == 0
        &&& t.original_flags == zero_fill_flags(section.original_flags)
    } else {
        let start = t.virtual_address->0;
        &&& is_cut_short(section) ==> start + t.size <= section.address
            + section.original_raw_size->0
        &&& t.kind == section.kind
        &&& t.original_flags == section.original_flags
        &&& section.kind == ObjSectionKind::Bss ==> t.data.len() == 0
        &&& section.kind != ObjSectionKind::Bss ==> t.data.len() == t.size && forall|x: int|
            0 <= x < t.size ==> #[trigger] t.data[x] == stored_byte(
                section,
                start - section.address + x,
            )
    }
}

pub proof fn lemma_dollar(name: Seq<char>, address: u32)
    ensures
        contribution::dollar_name(name, address) == with_dollar(name, address),
{
    spelled::law_address_spelling(address);
}

pub proof fn lemma_flags(flags: Option<u32>)
    ensures
        zero_fill::uninitialized_flags(flags) == zero_fill_flags(flags),
        zero_fill_flags(zero_fill_flags(flags)) == zero_fill_flags(flags),
{
    if let Some(f) = flags {
        assert((f & !0x40u32) | 0x80u32 == (f & 0xFFFF_FFBFu32) | 0x80u32) by (bit_vector);
        assert((((f & 0xFFFF_FFBFu32) | 0x80u32) & 0xFFFF_FFBFu32) | 0x80u32 == (f & 0xFFFF_FFBFu32)
            | 0x80u32) by (bit_vector);
    }
}

/// Whether padding `o` holds address `a`.
pub open spec fn pads(o: ObjModel, a: int) -> bool {
    exists|j: int| 0 <= j < o.sections.len() && ranges::holds(#[trigger] o.sections[j], a)
}

/// Whether the splits of a section are in order: none ends before it starts, nor after a later one
/// starts.
pub open spec fn splits_in_order(section: SectionModel) -> bool {
    &&& forall|k: int|
        0 <= k < section.splits.len() ==> (#[trigger] section.splits[k]).0
            <= section.splits[k].1.end
    &&& forall|j: int, k: int|
        #![trigger section.splits[j], section.splits[k]]
        0 <= j < k < section.splits.len() ==> section.splits[j].1.end <= section.splits[k].0
}

pub proof fn lemma_present<B>(s: Seq<Option<B>>)
    ensures
        forall|k: int|
            0 <= k < s.len() && (#[trigger] s[k]) is Some ==> outcome::present(s).contains(
                s[k]->0,
            ),
        forall|e: int|
            #![trigger outcome::present(s)[e]]
            0 <= e < outcome::present(s).len() ==> exists|k: int|
                0 <= k < s.len() && #[trigger] s[k] == Some(outcome::present(s)[e]),
    decreases s.len(),
{
    if s.len() > 0 {
        let rest = s.drop_last();
        let all = outcome::present(s);
        let before = outcome::present(rest);
        lemma_present(rest);
        assert forall|k: int| 0 <= k < s.len() && (#[trigger] s[k]) is Some implies all.contains(
            s[k]->0,
        ) by {
            if k < rest.len() {
                assert(rest[k] == s[k]);
                let e = choose|e: int| 0 <= e < before.len() && before[e] == s[k]->0;
                assert(all[e] == s[k]->0);
            } else {
                assert(all[all.len() - 1] == s[k]->0);
            }
        }
        assert forall|e: int| #![trigger all[e]] 0 <= e < all.len() implies exists|k: int|
            0 <= k < s.len() && #[trigger] s[k] == Some(all[e]) by {
            if e < before.len() {
                assert(before[e] == all[e]);
                let k = choose|k: int| 0 <= k < rest.len() && #[trigger] rest[k] == Some(before[e]);
                assert(s[k] == Some(all[e]));
            } else {
                assert(s[s.len() - 1] == Some(all[e]));
            }
        }
    }
}

/// How many splits start at or before `a`.
proof fn lemma_splits_before(section: SectionModel, a: int) -> (k: int)
    requires
        obj::rising(section.splits),
    ensures
        0 <= k <= section.splits.len(),
        k > 0 ==> section.splits[k - 1].0 <= a,
        k < section.splits.len() ==> section.splits[k].0 > a,
{
    lemma_splits_before_from(section, a, section.splits.len() as int)
}

proof fn lemma_splits_before_from(section: SectionModel, a: int, n: int) -> (k: int)
    requires
        obj::rising(section.splits),
        0 <= n <= section.splits.len(),
        n < section.splits.len() ==> section.splits[n].0 > a,
    ensures
        0 <= k <= n,
        k > 0 ==> section.splits[k - 1].0 <= a,
        k < section.splits.len() ==> section.splits[k].0 > a,
    decreases n,
{
    if n == 0 || section.splits[n - 1].0 <= a {
        n
    } else {
        lemma_splits_before_from(section, a, n - 1)
    }
}

/// The sections that fill a gap are padding of its section, and together hold the gap.
pub proof fn lemma_gap_sections(section: SectionModel, start: u32, end: u32)
    requires
        start < end,
        gaps::fillable(section, start, end),
        section.kind == ObjSectionKind::Bss || section.holds_range(start, end),
    ensures
        forall|j: int|
            0 <= j < gaps::gap_sections(section, start, end).len() ==> {
                let t = #[trigger] gaps::gap_sections(section, start, end)[j];
                &&& is_padding(section, t)
                &&& start <= t.virtual_address->0
                &&& t.virtual_address->0 + t.size <= end
            },
        forall|a: int|
            #![trigger ranges::count(ranges::ranges_of(gaps::gap_sections(section, start, end)), a)]
            ranges::count(ranges::ranges_of(gaps::gap_sections(section, start, end)), a) == (
            if start <= a < end {
                1nat
            } else {
                0
            }),
{
    let cut = gaps::storage_end(section, start, end);
    let all = gaps::gap_sections(section, start, end);
    let r = ranges::ranges_of(all);
    lemma_dollar(section.name, start);
    lemma_dollar(section.name.push('z'), cut);
    lemma_flags(section.original_flags);
    let bytes = gaps::padding_object(gaps::stored(section), start, cut).sections[0];
    if start < cut && section.kind != ObjSectionKind::Bss {
        assert forall|x: int| 0 <= x < bytes.size implies #[trigger] bytes.data[x] == stored_byte(
            section,
            start - section.address + x,
        ) by {}
    }
    reveal_with_fuel(ranges::count, 3);
    if cut == end || cut == start {
        assert(all.len() == 1);
        assert(r.len() == 1);
        assert forall|a: int| #[trigger] ranges::count(r, a) == (if start <= a < end {
            1nat
        } else {
            0
        }) by {
            assert(r.last() == r[0]);
            assert(r.drop_last().len() == 0);
        }
    } else {
        assert(all.len() == 2);
        assert(r.len() == 2);
        assert forall|a: int| #[trigger] ranges::count(r, a) == (if start <= a < end {
            1nat
        } else {
            0
        }) by {
            assert(r.last() == r[1]);
            assert(r.drop_last().last() == r[0]);
            assert(r.drop_last().drop_last().len() == 0);
        }
    }
}

/// Where padding of a section comes from.
pub proof fn lemma_padding_at(section: SectionModel, e: int) -> (m: int)
    requires
        gaps::section_padding(section) is Ok,
        gaps::section_paddable(section),
        0 <= e < gaps::section_padding(section)->Ok_0.len(),
    ensures
        0 <= m <= section.splits.len(),
        gaps::limit(section, m) <= u32::MAX,
        gaps::fillable(section, gaps::cursor(section, m), gaps::limit(section, m) as u32),
        gaps::cursor(section, m) < gaps::limit(section, m),
        section.kind == ObjSectionKind::Bss || section.holds_range(
            gaps::cursor(section, m),
            gaps::limit(section, m) as u32,
        ),
        gaps::section_padding(section)->Ok_0[e] == gaps::gap_object(
            section,
            gaps::cursor(section, m),
            gaps::limit(section, m) as u32,
        ),
{
    let steps = gaps::gaps(section);
    let values = outcome::collected(steps)->Ok_0;
    let all = gaps::section_padding(section)->Ok_0;
    lemma_present(values);
    let m = choose|m: int| 0 <= m < values.len() && #[trigger] values[m] == Some(all[e]);
    assert(steps[m] is Ok);
    assert(outcome::reached(steps, m));
    assert(gaps::gap_defined(section, m));
    m
}

/// Every address of a section is in a split or in the padding, and all padding is padding of the
/// section: without bytes in its zero fill, and with its original bytes before.
pub proof fn law_padding_fills_gaps(section: SectionModel, a: int)
    requires
        obj::rising(section.splits),
        gaps::section_paddable(section),
        gaps::section_padding(section) is Ok,
        section.address <= a < section.address + section.size,
    ensures
        in_split(section, a) || exists|e: int|
            0 <= e < gaps::section_padding(section)->Ok_0.len() && pads(
                #[trigger] gaps::section_padding(section)->Ok_0[e],
                a,
            ),
        forall|e: int, j: int|
            0 <= e < gaps::section_padding(section)->Ok_0.len() && 0 <= j
                < gaps::section_padding(section)->Ok_0[e].sections.len() ==> is_padding(
                section,
                #[trigger] gaps::section_padding(section)->Ok_0[e].sections[j],
            ),
{
    let steps = gaps::gaps(section);
    let values = outcome::collected(steps)->Ok_0;
    let all = gaps::section_padding(section)->Ok_0;
    let k = lemma_splits_before(section, a);
    if k > 0 && a < section.splits[k - 1].1.end {
        assert(in_split(section, a));
    } else {
        assert(steps[k] is Ok);
        assert(outcome::reached(steps, k));
        assert(gaps::gap_defined(section, k));
        lemma_present(values);
        let start = gaps::cursor(section, k);
        let end = gaps::limit(section, k) as u32;
        assert(start <= a < end);
        let o = gaps::gap_object(section, start, end);
        assert(values[k] == Some(o));
        let e = choose|e: int| 0 <= e < all.len() && all[e] == o;
        assert(all[e] == o);
        lemma_gap_sections(section, start, end);
        assert(ranges::count(ranges::ranges_of(o.sections), a) == 1);
        let j = ranges::lemma_count_some(ranges::ranges_of(o.sections), a);
        assert(ranges::holds(o.sections[j], a));
        assert(pads(all[e], a));
    }
    assert forall|e: int, j: int|
        0 <= e < all.len() && 0 <= j < all[e].sections.len() implies is_padding(
        section,
        #[trigger] all[e].sections[j],
    ) by {
        let m = lemma_padding_at(section, e);
        lemma_gap_sections(
            section,
            gaps::cursor(section, m),
            gaps::limit(section, m) as u32,
        );
    }
}

/// Padding overlaps no split of its section, where the splits are in order, and has no symbols.
pub proof fn law_padding_is_apart_from_splits(section: SectionModel, e: int, j: int, k: int)
    requires
        splits_in_order(section),
        gaps::section_paddable(section),
        gaps::section_padding(section) is Ok,
        0 <= e < gaps::section_padding(section)->Ok_0.len(),
        0 <= j < gaps::section_padding(section)->Ok_0[e].sections.len(),
        0 <= k < section.splits.len(),
    ensures
        ({
            let o = gaps::section_padding(section)->Ok_0[e];
            let t = o.sections[j];
            &&& o.symbols.len() == 0
            &&& is_padding(section, t)
            &&& t.virtual_address->0 + t.size <= section.splits[k].0 || section.splits[k].1.end
                <= t.virtual_address->0
        }),
{
    let m = lemma_padding_at(section, e);
    let start = gaps::cursor(section, m);
    let end = gaps::limit(section, m) as u32;
    lemma_gap_sections(section, start, end);
    assert(gaps::section_padding(section)->Ok_0[e].sections[j] == gaps::gap_sections(
        section,
        start,
        end,
    )[j]);
    if k < m {
        if k < m - 1 {
            assert(section.splits[k].1.end <= section.splits[m - 1].0);
        }
        assert(section.splits[m - 1].0 <= section.splits[m - 1].1.end);
    } else if m < k {
        assert(section.splits[m].0 <= section.splits[m].1.end);
        assert(section.splits[m].1.end <= section.splits[k].0);
    }
}

/// A split that leaves no contribution is refused, with its unit: the first of the section, where
/// the gaps before it can be padded.
pub proof fn law_splits_must_be_concrete(section: SectionModel, k: int)
    requires
        0 <= k < section.splits.len(),
        section.splits[k].1.skip || section.splits[k].1.common,
        outcome::reached(gaps::gaps(section), k),
    ensures
        gaps::section_padding(section) == Err::<Seq<ObjModel>, ErrorModel>(
            ErrorModel::NotConcrete(section.splits[k].1.unit),
        ),
{
    outcome::lemma_collected_err(
        gaps::gaps(section),
        k,
        ErrorModel::NotConcrete(section.splits[k].1.unit),
    );
}

/// The padding of a range is one object, named by the start of the range, with one section that has
/// the bytes of the range. There is none where a section with bytes does not reach as far.
pub proof fn law_padding_holds_range(section: SectionModel, start: u32, end: u32)
    requires
        gaps::paddable(section, start, end),
    ensures
        gaps::padded(section, start, end) is Ok <==> section.kind == ObjSectionKind::Bss || (
        section.address <= start && end <= section.address + section.size),
        gaps::padded(section, start, end) matches Err(e) ==> e == ErrorModel::RangeOutsideSection(
            start,
            end,
        ),
        gaps::padded(section, start, end) matches Ok(o) ==> {
            let t = o.sections[0];
            &&& o.kind == ObjKind::Relocatable
            &&& o.name == "padding_"@ + spelled::address_text(start)
            &&& o.symbols.len() == 0
            &&& o.sections.len() == 1
            &&& t.name == with_dollar(section.name, start)
            &&& t.kind == section.kind
            &&& t.original_flags == section.original_flags
            &&& t.size == end - start
            &&& t.align == 1
            &&& t.relocations.len() == 0
            &&& t.virtual_address == Some(start)
            &&& has_only_contents(t)
            &&& section.kind == ObjSectionKind::Bss ==> t.data.len() == 0
            &&& section.kind != ObjSectionKind::Bss ==> t.data.len() == end - start && forall|
                x: int,
            |
                0 <= x < end - start ==> #[trigger] t.data[x] == section.data[start
                    - section.address + x]
        },
{
    spelled::law_address_spelling(start);
    lemma_dollar(section.name, start);
}

/// Ranges that go forward can be padded, where the section has the bytes.
pub proof fn law_ranges_can_be_padded(section: SectionModel, start: u32, end: u32)
    requires
        start <= end,
        section.kind == ObjSectionKind::Bss || section.size <= section.data.len(),
    ensures
        gaps::paddable(section, start, end),
{
}

/// Whether an object is the padding of a gap from `start` to `end`: named by its start, without
/// symbols, and in one section or in two that follow each other.
pub open spec fn is_gap_object(section: SectionModel, o: ObjModel, start: int, end: int) -> bool {
    &&& o.kind == ObjKind::Relocatable
    &&& 0 <= start < end <= u32::MAX
    &&& o.name == "padding_"@ + spelled::address_text(start as u32)
    &&& o.symbols.len() == 0
    &&& 1 <= o.sections.len() <= 2
    &&& forall|j: int|
        0 <= j < o.sections.len() ==> is_padding(section, #[trigger] o.sections[j])
    &&& o.sections[0].virtual_address == Some(start as u32)
    &&& o.sections.len() == 2 ==> o.sections[0].virtual_address->0 + o.sections[0].size
        == o.sections[1].virtual_address->0
    &&& o.sections.last().virtual_address->0 + o.sections.last().size == end
}

/// Every object that pads a section is the padding of one of its gaps: from its start or the end of
/// a split, to the start of the next split or its end.
pub proof fn law_padding_objects_are_gaps(section: SectionModel, e: int) -> (m: int)
    requires
        gaps::section_paddable(section),
        gaps::section_padding(section) is Ok,
        0 <= e < gaps::section_padding(section)->Ok_0.len(),
    ensures
        0 <= m <= section.splits.len(),
        is_gap_object(
            section,
            gaps::section_padding(section)->Ok_0[e],
            if m == 0 {
                section.address as int
            } else {
                section.splits[m - 1].1.end as int
            },
            if m < section.splits.len() {
                section.splits[m].0 as int
            } else {
                section.address + section.size
            },
        ),
{
    let m = lemma_padding_at(section, e);
    let start = gaps::cursor(section, m);
    let end = gaps::limit(section, m) as u32;
    let o = gaps::section_padding(section)->Ok_0[e];
    spelled::law_address_spelling(start);
    lemma_gap_sections(section, start, end);
    assert(o.sections == gaps::gap_sections(section, start, end));
    m
}

} // verus!

//! Contributions for the bytes between splits.
//!
//! Splitting omits alignment gaps. Their actual bytes are preserved here: those that the image had
//! before analysis, up to the zero fill of its section.
use crate::contribution;
use crate::error::{ErrorModel, RelinkError};
use crate::obj;
use crate::obj::{ObjInfo, ObjKind, ObjModel, ObjSection, ObjSectionKind, SectionModel};
use crate::outcome;
use crate::text;
use crate::zero_fill;
use vstd::prelude::*;
use vstd::slice::{slice_subrange, slice_to_vec};
use vstd::string::StringExecFns;

verus! {

/// The object that holds a section from address `start` to address `end`.
pub open spec fn padding_object(section: SectionModel, start: u32, end: u32) -> ObjModel {
    ObjModel {
        kind: ObjKind::Relocatable,
        name: "padding_"@ + text::hex8(start),
        symbols: Seq::empty(),
        sections: seq![
            SectionModel {
                name: contribution::dollar_name(section.name, start),
                kind: section.kind,
                original_flags: section.original_flags,
                size: (end - start) as u32,
                data: if section.kind == ObjSectionKind::Bss {
                    Seq::empty()
                } else {
                    section.data.subrange(start - section.address, end - section.address)
                },
                align: 1,
                virtual_address: Some(start),
                ..obj::empty_section()
            },
        ],
    }
}

/// The padding from `start` to `end`, if the section holds it.
pub open spec fn padded(section: SectionModel, start: u32, end: u32) -> Result<ObjModel, ErrorModel> {
    if section.kind == ObjSectionKind::Bss || section.holds_range(start, end) {
        Ok(padding_object(section, start, end))
    } else {
        Err(ErrorModel::RangeOutsideSection(start, end))
    }
}

/// Whether a range goes forward, and the bytes of the section reach as far as it.
pub open spec fn paddable(section: SectionModel, start: u32, end: u32) -> bool {
    &&& start <= end
    &&& section.kind != ObjSectionKind::Bss && section.holds_range(start, end) ==> end
        - section.address <= section.data.len()
}

/// Where the split before number `k` ends, or the section starts.
pub open spec fn cursor(section: SectionModel, k: int) -> u32 {
    if k == 0 {
        section.address
    } else {
        section.splits[k - 1].1.end
    }
}

/// Where split number `k` starts, or the section ends.
pub open spec fn limit(section: SectionModel, k: int) -> int {
    if k < section.splits.len() {
        section.splits[k].0 as int
    } else {
        section.address + section.size
    }
}

/// A section with its original bytes, as far as the image has them, in place of those that
/// analysis rewrote.
pub open spec fn stored(section: SectionModel) -> SectionModel {
    SectionModel {
        data: match section.original_data {
            Some(original) => if original.len() < section.data.len() {
                original + section.data.skip(original.len() as int)
            } else {
                original
            },
            None => section.data,
        },
        ..section
    }
}

/// Where the part of a gap ends that the image stores. The rest is zero fill.
pub open spec fn storage_end(section: SectionModel, start: u32, end: u32) -> u32 {
    if zero_fill::has_zero_fill(section) && zero_fill::initialized_end(section) < end {
        if zero_fill::initialized_end(section) > start {
            zero_fill::initialized_end(section) as u32
        } else {
            start
        }
    } else {
        end
    }
}

/// A gap as contributions: what the image stores of it with the original bytes, then its zero fill.
pub open spec fn gap_sections(section: SectionModel, start: u32, end: u32) -> Seq<SectionModel> {
    let cut = storage_end(section, start, end);
    let bytes = padding_object(stored(section), start, cut).sections;
    let zeros = padding_object(zero_fill::as_zero_fill(section), cut, end).sections;
    if cut == end {
        bytes
    } else if cut == start {
        zeros
    } else {
        bytes + zeros
    }
}

/// The object that fills a gap.
pub open spec fn gap_object(section: SectionModel, start: u32, end: u32) -> ObjModel {
    ObjModel {
        sections: gap_sections(section, start, end),
        ..padding_object(section, start, end)
    }
}

/// What fills the gap from `start` to `end`, if the section holds it.
pub open spec fn filled(section: SectionModel, start: u32, end: u32) -> Result<
    ObjModel,
    ErrorModel,
> {
    if section.kind == ObjSectionKind::Bss || section.holds_range(start, end) {
        Ok(gap_object(section, start, end))
    } else {
        Err(ErrorModel::RangeOutsideSection(start, end))
    }
}

/// Whether the bytes of the section reach as far as the gap, up to its zero fill.
pub open spec fn fillable(section: SectionModel, start: u32, end: u32) -> bool {
    let cut = storage_end(section, start, end);
    section.kind != ObjSectionKind::Bss && section.holds_range(start, end) && start < cut ==> cut
        - section.address <= stored(section).data.len()
}

/// The padding before split number `k`, or behind the last. There is none for a split that leaves
/// no contribution.
pub open spec fn gap(section: SectionModel, k: int) -> Result<Option<ObjModel>, ErrorModel> {
    if k < section.splits.len() && (section.splits[k].1.skip || section.splits[k].1.common) {
        Err(ErrorModel::NotConcrete(section.splits[k].1.unit))
    } else if cursor(section, k) < limit(section, k) {
        match filled(section, cursor(section, k), limit(section, k) as u32) {
            Ok(o) => Ok(Some(o)),
            Err(e) => Err(e),
        }
    } else {
        Ok(None)
    }
}

/// Whether the padding before split number `k`, or behind the last, can be made.
pub open spec fn gap_defined(section: SectionModel, k: int) -> bool {
    &&& limit(section, k) <= u32::MAX
    &&& cursor(section, k) < limit(section, k) && !(k < section.splits.len() && (
    section.splits[k].1.skip || section.splits[k].1.common)) ==> fillable(
        section,
        cursor(section, k),
        limit(section, k) as u32,
    )
}

pub open spec fn gaps(section: SectionModel) -> Seq<Result<Option<ObjModel>, ErrorModel>> {
    Seq::new(section.splits.len() + 1, |k: int| gap(section, k))
}

/// The padding of a section.
pub open spec fn section_padding(section: SectionModel) -> Result<Seq<ObjModel>, ErrorModel> {
    match outcome::collected(gaps(section)) {
        Ok(v) => Ok(outcome::present(v)),
        Err(e) => Err(e),
    }
}

/// Whether each gap of a section that is reached can be padded.
pub open spec fn section_paddable(section: SectionModel) -> bool {
    forall|k: int|
        0 <= k <= section.splits.len() && outcome::reached(gaps(section), k)
            ==> #[trigger] gap_defined(section, k)
}

pub open spec fn section_paddings(sections: Seq<SectionModel>) -> Seq<
    Result<Seq<ObjModel>, ErrorModel>,
> {
    Seq::new(sections.len(), |i: int| section_padding(sections[i]))
}

/// The padding of all sections.
pub open spec fn all_padding(sections: Seq<SectionModel>) -> Result<Seq<ObjModel>, ErrorModel> {
    match outcome::collected(section_paddings(sections)) {
        Ok(v) => Ok(outcome::concat(v)),
        Err(e) => Err(e),
    }
}

/// Whether each section that is reached can be padded.
pub open spec fn all_paddable(sections: Seq<SectionModel>) -> bool {
    forall|i: int|
        0 <= i < sections.len() && outcome::reached(section_paddings(sections), i)
            ==> section_paddable(#[trigger] sections[i])
}

/// The bytes of a section from address `start` to address `end`, as an object.
pub fn padding(section: &ObjSection, start: u32, end: u32) -> (r: Result<ObjInfo, RelinkError>)
    requires
        paddable(section@, start, end),
    ensures
        match r {
            Ok(o) => padded(section@, start, end) == Ok::<ObjModel, ErrorModel>(o@),
            Err(e) => padded(section@, start, end) == Err::<ObjModel, ErrorModel>(e@),
        },
{
    let data: Vec<u8> = if section.kind == ObjSectionKind::Bss {
        Vec::new()
    } else {
        match section.data_range(start, end) {
            Ok(bytes) => slice_to_vec(bytes),
            Err(e) => {
                return Err(e);
            },
        }
    };
    let mut part = ObjSection::default();
    part.name = contribution::with_address(section.name.as_str(), start);
    part.kind = section.kind;
    part.original_flags = section.original_flags;
    part.size = end - start;
    part.data = data;
    part.align = 1;
    part.virtual_address = Some(start);
    let ghost model = part@;
    let mut name = String::from_str("padding_");
    text::push_hex8(&mut name, start);
    let mut sections: Vec<ObjSection> = Vec::new();
    sections.push(part);
    let object = ObjInfo::new(ObjKind::Relocatable, name, Vec::new(), sections);
    proof {
        let expected = padding_object(section@, start, end);
        assert(model =~= expected.sections[0]);
        assert(object@.sections =~= expected.sections);
        assert(object@.symbols =~= expected.symbols);
        assert(object@ =~= expected);
    }
    Ok(object)
}

/// A section with its original bytes.
fn with_original_bytes(section: &ObjSection) -> (r: ObjSection)
    ensures
        r@ == stored(section@),
{
    let mut r = section.clone();
    if let Some(original) = &section.original_data {
        let mut bytes = slice_to_vec(original.as_slice());
        if bytes.len() < section.data.len() {
            let mut rest = slice_to_vec(
                slice_subrange(section.data.as_slice(), bytes.len(), section.data.len()),
            );
            bytes.append(&mut rest);
        }
        r.data = bytes;
    }
    assert(r@ =~= stored(section@));
    r
}

/// A section as zero fill.
fn with_zero_fill(section: &ObjSection) -> (r: ObjSection)
    ensures
        r@ == zero_fill::as_zero_fill(section@),
{
    let mut r = section.clone();
    zero_fill::make_zero_fill(&mut r);
    r
}

fn find_storage_end(section: &ObjSection, start: u32, end: u32) -> (r: u32)
    ensures
        r == storage_end(section@, start, end),
{
    if let Some(raw_size) = section.original_raw_size {
        let boundary: u64 = section.address as u64 + raw_size as u64;
        if boundary < section.address as u64 + section.size as u64 && boundary < end as u64 {
            return if boundary > start as u64 {
                boundary as u32
            } else {
                start
            };
        }
    }
    end
}

/// The object that fills the gap from `start` to `end`. `None` where the bytes of the section do
/// not reach as far.
fn fill_gap(
    section: &ObjSection,
    bytes: &ObjSection,
    zeros: &ObjSection,
    start: u32,
    end: u32,
) -> (r: Option<Result<ObjInfo, RelinkError>>)
    requires
        start < end,
        bytes@ == stored(section@),
        zeros@ == zero_fill::as_zero_fill(section@),
    ensures
        r is Some <==> fillable(section@, start, end),
        match r {
            None => true,
            Some(Ok(o)) => filled(section@, start, end) == Ok::<ObjModel, ErrorModel>(o@),
            Some(Err(e)) => filled(section@, start, end) == Err::<ObjModel, ErrorModel>(e@),
        },
{
    let has_bytes: bool = section.kind != ObjSectionKind::Bss;
    if has_bytes && (start < section.address || end - section.address > section.size) {
        return Some(Err(RelinkError::RangeOutsideSection(start, end)));
    }
    let cut: u32 = find_storage_end(section, start, end);
    if has_bytes && start < cut && (cut - section.address) as usize > bytes.data.len() {
        return None;
    }
    if cut == end {
        let whole = padding(bytes, start, end);
        assert(gap_object(section@, start, end) =~= padding_object(bytes@, start, end));
        return Some(whole);
    }
    let tail = match padding(zeros, cut, end) {
        Ok(tail) => tail,
        Err(e) => {
            return Some(Err(e));
        },
    };
    if cut == start {
        assert(gap_object(section@, start, end) =~= padding_object(zeros@, start, end));
        return Some(Ok(tail));
    }
    let mut object = match padding(bytes, start, cut) {
        Ok(object) => object,
        Err(e) => {
            return Some(Err(e));
        },
    };
    let ghost head = object@;
    let mut rest = tail.sections;
    let ghost second = obj::views(rest@);
    object.sections.append(&mut rest);
    assert(object@.sections =~= head.sections + second);
    assert(object@ =~= gap_object(section@, start, end));
    Some(Ok(object))
}

/// Appends the padding of a section. `None` where its bytes do not reach as far as a gap.
fn pad_section(section: &ObjSection, objects: &mut Vec<ObjInfo>) -> (r: Option<
    Result<(), RelinkError>,
>)
    ensures
        r is Some <==> section_paddable(section@),
        match r {
            None => true,
            Some(Ok(_)) => section_padding(section@) matches Ok(v) && obj::views(final(objects)@)
                == obj::views(old(objects)@) + v,
            Some(Err(e)) => section_padding(section@) == Err::<Seq<ObjModel>, ErrorModel>(e@),
        },
{
    let ghost start = obj::views(objects@);
    let ghost rs = gaps(section@);
    let ghost mut done: Seq<Option<ObjModel>> = Seq::empty();
    let bytes = with_original_bytes(section);
    let zeros = with_zero_fill(section);
    let count: usize = section.splits.len();
    let mut from: u32 = section.address;
    let mut k: usize = 0;
    assert(obj::views(objects@) =~= start + outcome::present(done));
    loop
        invariant
            k <= count,
            count == section@.splits.len(),
            start == obj::views(old(objects)@),
            rs == gaps(section@),
            bytes@ == stored(section@),
            zeros@ == zero_fill::as_zero_fill(section@),
            from == cursor(section@, k as int),
            done.len() == k,
            forall|j: int|
                0 <= j < k ==> #[trigger] rs[j] == Ok::<Option<ObjModel>, ErrorModel>(done[j]),
            forall|j: int| 0 <= j < k ==> #[trigger] gap_defined(section@, j),
            obj::views(objects@) == start + outcome::present(done),
        decreases count - k,
    {
        assert(outcome::reached(rs, k as int));
        assert(rs[k as int] == gap(section@, k as int));
        if k < count {
            let (_, split) = section.splits.get(k);
            if split.skip || split.common {
                let unit = split.unit.clone();
                proof {
                    outcome::lemma_collected_err(rs, k as int, ErrorModel::NotConcrete(unit@));
                    assert(gap_defined(section@, k as int));
                    lemma_paddable_up_to(section@, k as int);
                }
                return Some(Err(RelinkError::NotConcrete(unit)));
            }
        } else if section.size > u32::MAX - section.address {
            assert(!gap_defined(section@, k as int));
            return None;
        }
        let end: u32 = if k < count {
            section.splits.get(k).0
        } else {
            section.address + section.size
        };
        assert(end == limit(section@, k as int));
        let ghost before = objects@;
        let ghost earlier = done;
        if from < end {
            match fill_gap(section, &bytes, &zeros, from, end) {
                None => {
                    assert(!gap_defined(section@, k as int));
                    return None;
                },
                Some(Ok(o)) => {
                    objects.push(o);
                    proof {
                        done = done.push(Some(o@));
                        assert(done.drop_last() =~= earlier);
                        assert(obj::views(objects@) =~= obj::views(before).push(o@));
                        assert(obj::views(objects@) =~= start + outcome::present(done));
                    }
                },
                Some(Err(e)) => {
                    proof {
                        outcome::lemma_collected_err(rs, k as int, e@);
                        assert(gap_defined(section@, k as int));
                        lemma_paddable_up_to(section@, k as int);
                    }
                    return Some(Err(e));
                },
            }
        } else {
            proof {
                done = done.push(None);
                assert(done.drop_last() =~= earlier);
            }
        }
        assert(gap_defined(section@, k as int));
        if k == count {
            proof {
                outcome::lemma_collected_ok(rs, done);
            }
            return Some(Ok(()));
        }
        from = section.splits.get(k).1.end;
        k = k + 1;
    }
}

/// Gaps behind one that cannot be filled are not reached.
proof fn lemma_paddable_up_to(section: SectionModel, k: int)
    requires
        0 <= k <= section.splits.len(),
        gaps(section)[k] is Err,
        forall|j: int| 0 <= j <= k ==> #[trigger] gap_defined(section, j),
    ensures
        section_paddable(section),
{
    assert forall|j: int|
        0 <= j <= section.splits.len() && outcome::reached(
            gaps(section),
            j,
        ) implies #[trigger] gap_defined(section, j) by {
        if j > k {
            assert(gaps(section)[k] is Ok);
        }
    }
}

/// The padding of all sections of an image. `None` where the bytes of a section do not reach as
/// far as a gap.
pub fn pad_sections(image: &ObjInfo) -> (r: Option<Result<Vec<ObjInfo>, RelinkError>>)
    ensures
        r is Some <==> all_paddable(image@.sections),
        match r {
            None => true,
            Some(Ok(v)) => all_padding(image@.sections) == Ok::<Seq<ObjModel>, ErrorModel>(
                obj::views(v@),
            ),
            Some(Err(e)) => all_padding(image@.sections) == Err::<Seq<ObjModel>, ErrorModel>(e@),
        },
{
    let mut objects: Vec<ObjInfo> = Vec::new();
    let ghost rs = section_paddings(image@.sections);
    let ghost mut done: Seq<Seq<ObjModel>> = Seq::empty();
    let mut i: usize = 0;
    assert(obj::views(objects@) =~= outcome::concat(done));
    while i < image.sections.len()
        invariant
            i <= image.sections.len(),
            rs == section_paddings(image@.sections),
            done.len() == i,
            forall|j: int|
                0 <= j < i ==> #[trigger] rs[j] == Ok::<Seq<ObjModel>, ErrorModel>(done[j]),
            forall|j: int| 0 <= j < i ==> section_paddable(#[trigger] image@.sections[j]),
            obj::views(objects@) == outcome::concat(done),
        decreases image.sections.len() - i,
    {
        let section = &image.sections[i];
        assert(outcome::reached(rs, i as int));
        assert(image@.sections[i as int] == section@);
        assert(rs[i as int] == section_padding(section@));
        let ghost earlier = done;
        match pad_section(section, &mut objects) {
            None => {
                return None;
            },
            Some(Ok(_)) => {
                proof {
                    done = done.push(section_padding(section@)->Ok_0);
                    assert(done.drop_last() =~= earlier);
                    assert(obj::views(objects@) =~= outcome::concat(done));
                }
            },
            Some(Err(e)) => {
                proof {
                    outcome::lemma_collected_err(rs, i as int, e@);
                    assert forall|j: int|
                        0 <= j < image@.sections.len() && outcome::reached(
                            rs,
                            j,
                        ) implies section_paddable(#[trigger] image@.sections[j]) by {
                        if j > i {
                            assert(rs[i as int] is Ok);
                        }
                    }
                }
                return Some(Err(e));
            },
        }
        i = i + 1;
    }
    proof {
        outcome::lemma_collected_ok(rs, done);
    }
    Some(Ok(objects))
}

} // verus!

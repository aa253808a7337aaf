//! The original bytes of an image in its link contributions.
//!
//! Analysis unstrips XEX imports into executable thunks and import table values. Relinking the
//! extracted image must retain its original loader tokens, and must not relocate those tokens as
//! instructions or pointers.
use crate::error::{ErrorModel, RelinkError};
use crate::obj;
use crate::obj::{ObjInfo, ObjModel, ObjRelocations, ObjSection, SectionModel};
use crate::outcome;
use vstd::prelude::*;
use vstd::slice::{slice_subrange, slice_to_vec};

verus! {

/// What the image holds at the place of `s`, before analysis.
pub open spec fn token_bytes(original: SectionModel, s: SectionModel) -> Seq<u8> {
    let from = s.virtual_address->0 - original.address;
    original.original_data->0.subrange(from, from + s.size)
}

/// Whether `a` and `b` hold the same four bytes at `offset`.
pub open spec fn same_word(a: Seq<u8>, b: Seq<u8>, offset: u32) -> bool {
    a.subrange(offset as int, offset + 4) == b.subrange(offset as int, offset + 4)
}

/// Which relocations stand on bytes that `bytes` leaves as they are.
pub open spec fn untouched(s: SectionModel, bytes: Seq<u8>) -> Seq<bool> {
    Seq::new(s.relocations.len(), |i: int| same_word(s.data, bytes, s.relocations[i].0))
}

/// A section with the original bytes of the image, if it has them, and the relocations of the
/// words that they leave as they are.
pub open spec fn restored_section(image: ObjModel, s: SectionModel) -> Result<
    SectionModel,
    ErrorModel,
> {
    let start = s.virtual_address->0;
    match obj::section_at(image.sections, start, 0) {
        None => Err(ErrorModel::NoSectionAt(start)),
        Some(k) => match image.sections[k].original_data {
            None => Ok(s),
            Some(_) => {
                let bytes = token_bytes(image.sections[k], s);
                Ok(
                    SectionModel {
                        relocations: outcome::selected(s.relocations, untouched(s, bytes)),
                        data: bytes,
                        ..s
                    },
                )
            },
        },
    }
}

/// Whether a section has an address, and the original bytes reach as far as the section and its
/// relocations.
pub open spec fn restorable_section(image: ObjModel, s: SectionModel) -> bool {
    &&& s.virtual_address is Some
    &&& match obj::section_at(image.sections, s.virtual_address->0, 0) {
        None => true,
        Some(k) => image.sections[k].original_data matches Some(data) ==> {
            &&& s.virtual_address->0 - image.sections[k].address + s.size <= data.len()
            &&& forall|i: int|
                0 <= i < s.relocations.len() ==> (#[trigger] s.relocations[i]).0 + 4 <= s.size
                    && s.relocations[i].0 + 4 <= s.data.len()
        },
    }
}

pub open spec fn restored_sections(image: ObjModel, sections: Seq<SectionModel>) -> Seq<
    Result<SectionModel, ErrorModel>,
> {
    Seq::new(sections.len(), |i: int| restored_section(image, sections[i]))
}

pub open spec fn restored_object(image: ObjModel, o: ObjModel) -> Result<ObjModel, ErrorModel> {
    match outcome::collected(restored_sections(image, o.sections)) {
        Ok(sections) => Ok(ObjModel { sections, ..o }),
        Err(e) => Err(e),
    }
}

/// Whether each section that is reached can be restored.
pub open spec fn restorable_object(image: ObjModel, o: ObjModel) -> bool {
    forall|i: int|
        0 <= i < o.sections.len() && outcome::reached(restored_sections(image, o.sections), i)
            ==> restorable_section(image, #[trigger] o.sections[i])
}

pub open spec fn restored_objects(image: ObjModel, objects: Seq<ObjModel>) -> Seq<
    Result<ObjModel, ErrorModel>,
> {
    Seq::new(objects.len(), |i: int| restored_object(image, objects[i]))
}

/// The objects with the original bytes of the image.
pub open spec fn restored(image: ObjModel, objects: Seq<ObjModel>) -> Result<
    Seq<ObjModel>,
    ErrorModel,
> {
    outcome::collected(restored_objects(image, objects))
}

/// Whether each object that is reached can be restored.
pub open spec fn restorable(image: ObjModel, objects: Seq<ObjModel>) -> bool {
    forall|i: int|
        0 <= i < objects.len() && outcome::reached(restored_objects(image, objects), i)
            ==> restorable_object(image, #[trigger] objects[i])
}

fn words_equal(a: &Vec<u8>, b: &Vec<u8>, offset: u32) -> (r: bool)
    requires
        offset + 4 <= a.len(),
        offset + 4 <= b.len(),
    ensures
        r == same_word(a@, b@, offset),
{
    let o: usize = offset as usize;
    let r: bool = a[o] == b[o] && a[o + 1] == b[o + 1] && a[o + 2] == b[o + 2] && a[o + 3] == b[o
        + 3];
    proof {
        let x = a@.subrange(o as int, o + 4);
        let y = b@.subrange(o as int, o + 4);
        if r {
            assert(x =~= y);
        } else {
            assert(x[0] == a@[o as int] && x[1] == a@[o + 1] && x[2] == a@[o + 2] && x[3] == a@[o
                + 3]);
            assert(y[0] == b@[o as int] && y[1] == b@[o + 1] && y[2] == b@[o + 2] && y[3] == b@[o
                + 3]);
        }
    }
    r
}

/// Gives a section the original bytes of the image. `None` where it has no address, or these bytes
/// do not reach as far as the section and its relocations.
fn restore_section(image: &ObjInfo, section: &mut ObjSection) -> (r: Option<
    Result<(), RelinkError>,
>)
    ensures
        r is Some <==> restorable_section(image@, old(section)@),
        match r {
            None => true,
            Some(Ok(_)) => restored_section(image@, old(section)@) == Ok::<
                SectionModel,
                ErrorModel,
            >(final(section)@),
            Some(Err(e)) => restored_section(image@, old(section)@) == Err::<
                SectionModel,
                ErrorModel,
            >(e@),
        },
{
    let ghost before = section@;
    let start: u32 = match section.virtual_address {
        Some(start) => start,
        None => {
            return None;
        },
    };
    let k: usize = match image.section_at_address(start) {
        Ok(k) => k,
        Err(e) => {
            return Some(Err(e));
        },
    };
    let original = &image.sections[k];
    assert(image@.sections[k as int] == original@);
    proof {
        lemma_section_at(image@.sections, start, 0);
    }
    match &original.original_data {
        None => {},
        Some(data) => {
            let from: u32 = start - original.address;
            let end: u64 = from as u64 + section.size as u64;
            assert(original@.original_data == Some(data@));
            if end > data.len() as u64 {
                return None;
            }
            let bytes = slice_to_vec(slice_subrange(data.as_slice(), from as usize, end as usize));
            assert(bytes@ == token_bytes(original@, before));
            let mut keep: Vec<bool> = Vec::new();
            let entries = section.relocations.entries();
            let mut i: usize = 0;
            while i < entries.len()
                invariant
                    i <= entries.len(),
                    entries@ == before.relocations,
                    section@ == before,
                    before == old(section)@,
                    before.virtual_address == Some(start),
                    obj::section_at(image@.sections, start, 0) == Some(k as int),
                    image@.sections[k as int] == original@,
                    original@.original_data is Some,
                    bytes.len() == before.size,
                    forall|j: int|
                        0 <= j < i ==> (#[trigger] before.relocations[j]).0 + 4 <= before.size
                            && before.relocations[j].0 + 4 <= before.data.len(),
                    keep@ == untouched(before, bytes@).take(i as int),
                decreases entries.len() - i,
            {
                assert(before.relocations[i as int] == entries@[i as int]);
                let word_end: u64 = entries[i].0 as u64 + 4;
                if word_end > bytes.len() as u64 || word_end > section.data.len() as u64 {
                    return None;
                }
                keep.push(words_equal(&section.data, &bytes, entries[i].0));
                assert(keep@ =~= untouched(before, bytes@).take(i + 1));
                i = i + 1;
            }
            assert(untouched(before, bytes@).take(i as int) =~= untouched(before, bytes@));
            let relocations: ObjRelocations = section.relocations.select(&keep);
            section.relocations = relocations;
            section.data = bytes;
        },
    }
    Some(Ok(()))
}

pub proof fn lemma_section_at(sections: Seq<SectionModel>, address: u32, from: int)
    requires
        0 <= from,
    ensures
        match obj::section_at(sections, address, from) {
            Some(k) => from <= k < sections.len() && sections[k].holds(address),
            None => true,
        },
    decreases sections.len() - from,
{
    if from < sections.len() && !sections[from].holds(address) {
        lemma_section_at(sections, address, from + 1);
    }
}

fn restore_object(image: &ObjInfo, object: &mut ObjInfo) -> (r: Option<
    Result<(), RelinkError>,
>)
    ensures
        r is Some <==> restorable_object(image@, old(object)@),
        match r {
            None => true,
            Some(Ok(_)) => restored_object(image@, old(object)@) == Ok::<ObjModel, ErrorModel>(
                final(object)@,
            ),
            Some(Err(e)) => restored_object(image@, old(object)@) == Err::<ObjModel, ErrorModel>(e@),
        },
{
    let ghost before = object@;
    let ghost rs = restored_sections(image@, before.sections);
    let mut i: usize = 0;
    while i < object.sections.len()
        invariant
            i <= object.sections.len(),
            before == old(object)@,
            rs == restored_sections(image@, before.sections),
            forall|j: int| 0 <= j < i ==> restorable_section(image@, #[trigger] before.sections[j]),
            object.sections.len() == before.sections.len(),
            object.kind == old(object).kind,
            object.name == old(object).name,
            object.symbols@ == old(object).symbols@,
            forall|j: int|
                0 <= j < i ==> #[trigger] rs[j] == Ok::<SectionModel, ErrorModel>(
                    object.sections@[j]@,
                ),
            forall|j: int|
                i <= j < object.sections.len() ==> (#[trigger] object.sections@[j])@
                    == before.sections[j],
        decreases object.sections.len() - i,
    {
        assert(outcome::reached(rs, i as int));
        assert(object.sections@[i as int]@ == before.sections[i as int]);
        assert(rs[i as int] == restored_section(image@, before.sections[i as int]));
        let ghost seen = object.sections@;
        match restore_section(image, &mut object.sections[i]) {
            None => {
                return None;
            },
            Some(Ok(_)) => {},
            Some(Err(e)) => {
                proof {
                    outcome::lemma_collected_err(rs, i as int, e@);
                    assert forall|j: int|
                        0 <= j < before.sections.len() && outcome::reached(
                            rs,
                            j,
                        ) implies restorable_section(image@, #[trigger] before.sections[j]) by {
                        if j > i {
                            assert(rs[i as int] is Ok);
                        }
                    }
                }
                return Some(Err(e));
            },
        }
        proof {
            assert forall|j: int| 0 <= j < object.sections.len() && j != i implies #[trigger] object.sections@[j]
                == seen[j] by {}
        }
        i = i + 1;
    }
    proof {
        outcome::lemma_collected_ok(rs, obj::views(object.sections@));
    }
    Some(Ok(()))
}

/// Gives the objects the original bytes of the image.
pub fn restore_objects(image: &ObjInfo, objects: Vec<ObjInfo>) -> (r: Option<
    Result<Vec<ObjInfo>, RelinkError>,
>)
    ensures
        r is Some <==> restorable(image@, obj::views(objects@)),
        match r {
            None => true,
            Some(Ok(v)) => restored(image@, obj::views(objects@)) == Ok::<Seq<ObjModel>, ErrorModel>(
                obj::views(v@),
            ),
            Some(Err(e)) => restored(image@, obj::views(objects@)) == Err::<
                Seq<ObjModel>,
                ErrorModel,
            >(e@),
        },
{
    let mut linked = objects;
    let ghost before = obj::views(linked@);
    let ghost rs = restored_objects(image@, before);
    let mut i: usize = 0;
    while i < linked.len()
        invariant
            i <= linked.len(),
            before == obj::views(objects@),
            rs == restored_objects(image@, before),
            forall|j: int| 0 <= j < i ==> restorable_object(image@, #[trigger] before[j]),
            linked.len() == before.len(),
            forall|j: int|
                0 <= j < i ==> #[trigger] rs[j] == Ok::<ObjModel, ErrorModel>(linked@[j]@),
            forall|j: int| i <= j < linked.len() ==> (#[trigger] linked@[j])@ == before[j],
        decreases linked.len() - i,
    {
        assert(outcome::reached(rs, i as int));
        assert(linked@[i as int]@ == before[i as int]);
        assert(rs[i as int] == restored_object(image@, before[i as int]));
        let ghost seen = linked@;
        match restore_object(image, &mut linked[i]) {
            None => {
                return None;
            },
            Some(Ok(_)) => {},
            Some(Err(e)) => {
                proof {
                    outcome::lemma_collected_err(rs, i as int, e@);
                    assert forall|j: int|
                        0 <= j < before.len() && outcome::reached(rs, j) implies restorable_object(
                        image@,
                        #[trigger] before[j],
                    ) by {
                        if j > i {
                            assert(rs[i as int] is Ok);
                        }
                    }
                }
                return Some(Err(e));
            },
        }
        proof {
            assert forall|j: int| 0 <= j < linked.len() && j != i implies #[trigger] linked@[j]
                == seen[j] by {}
        }
        i = i + 1;
    }
    proof {
        outcome::lemma_collected_ok(rs, obj::views(linked@));
    }
    Some(Ok(linked))
}

} // verus!

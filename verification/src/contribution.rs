//! Sections as address-ordered link contributions.
use crate::error::{ErrorModel, RelinkError};
use crate::obj;
use crate::obj::{
    ObjInfo, ObjModel, ObjReloc, ObjRelocKind, ObjRelocations, ObjSection, ObjSymbol, SectionModel,
    SymbolModel,
};
use crate::outcome;
use crate::text;
use vstd::prelude::*;
use vstd::string::StringExecFns;

verus! {

/// Metadata sections that the linker recognizes by their full names. There is one of each, so
/// their order is not in question.
pub open spec fn is_opaque(name: Seq<char>) -> bool {
    ||| name == ".edata"@
    ||| name == ".idata"@
    ||| name == ".reloc"@
    ||| name == ".XEXID"@
    ||| name == ".XBLD"@
    ||| name == ".XBMOVIE"@
}

/// Whether some section is named `name`.
pub open spec fn has_section(sections: Seq<SectionModel>, name: Seq<char>) -> bool {
    exists|i: int| 0 <= i < sections.len() && (#[trigger] sections[i]).name == name
}

/// A name with an address behind a dollar sign, by which the linker orders contributions.
pub open spec fn dollar_name(name: Seq<char>, address: u32) -> Seq<char> {
    name + seq!['$'] + text::hex8(address)
}

/// The name of a contribution at `address`.
pub open spec fn contribution_name(image: ObjModel, name: Seq<char>, address: u32) -> Seq<char> {
    if name == ".reloc"@ && has_section(image.sections, ".XBLD"@) {
        dollar_name(".XBLD"@, address)
    } else if is_opaque(name) {
        name
    } else {
        dollar_name(name, address)
    }
}

pub open spec fn is_branch(kind: ObjRelocKind) -> bool {
    kind == ObjRelocKind::PpcRel14 || kind == ObjRelocKind::PpcRel24
}

/// Whether a relocation of section `index` is a branch to a place in the same section.
pub open spec fn is_local_branch(
    syms: Seq<SymbolModel>,
    index: int,
    size: u32,
    reloc: ObjReloc,
) -> bool {
    let target = syms[reloc.target_symbol as int];
    &&& is_branch(reloc.kind)
    &&& target.section is Some && target.section->0 == index
    &&& 0 <= target.address + reloc.addend < size
}

/// Which relocations the linker has to resolve.
pub open spec fn open_relocations(syms: Seq<SymbolModel>, index: int, s: SectionModel) -> Seq<bool> {
    Seq::new(
        s.relocations.len(),
        |i: int| !is_local_branch(syms, index, s.size, s.relocations[i].1),
    )
}

/// Section `index` of an object as a contribution. Gaps are explicit, so implicit alignment must
/// not insert bytes.
pub open spec fn finished_section(image: ObjModel, o: ObjModel, index: int) -> Result<
    SectionModel,
    ErrorModel,
> {
    let s = o.sections[index];
    match s.virtual_address {
        None => Err(ErrorModel::MissingAddress),
        Some(address) => Ok(
            SectionModel {
                align: 1,
                relocations: if is_opaque(s.name) {
                    Seq::empty()
                } else {
                    outcome::selected(s.relocations, open_relocations(o.symbols, index, s))
                },
                name: contribution_name(image, s.name, address),
                ..s
            },
        ),
    }
}

/// Whether a relocation of section `index` has a target, and the place that it names fits 64 bits
/// if it is a branch into the section.
pub open spec fn is_finishable(o: ObjModel, index: int, reloc: ObjReloc) -> bool {
    let target = o.symbols[reloc.target_symbol as int];
    &&& reloc.target_symbol < o.symbols.len()
    &&& is_branch(reloc.kind) && target.section is Some && target.section->0 == index ==> i64::MIN
        <= target.address + reloc.addend <= i64::MAX
}

/// Whether this holds of each relocation of section `index`.
pub open spec fn finishable_section(o: ObjModel, index: int) -> bool {
    let s = o.sections[index];
    forall|i: int|
        0 <= i < s.relocations.len() ==> is_finishable(o, index, (#[trigger] s.relocations[i]).1)
}

pub open spec fn finished_sections(image: ObjModel, o: ObjModel) -> Seq<
    Result<SectionModel, ErrorModel>,
> {
    Seq::new(o.sections.len(), |i: int| finished_section(image, o, i))
}

pub open spec fn finished_object(image: ObjModel, o: ObjModel) -> Result<ObjModel, ErrorModel> {
    match outcome::collected(finished_sections(image, o)) {
        Ok(sections) => Ok(ObjModel { sections, ..o }),
        Err(e) => Err(e),
    }
}

pub open spec fn finishable_object(image: ObjModel, o: ObjModel) -> bool {
    forall|i: int|
        0 <= i < o.sections.len() && outcome::reached(finished_sections(image, o), i)
            ==> #[trigger] finishable_section(o, i)
}

pub open spec fn finished_objects(image: ObjModel, objects: Seq<ObjModel>) -> Seq<
    Result<ObjModel, ErrorModel>,
> {
    Seq::new(objects.len(), |i: int| finished_object(image, objects[i]))
}

/// The objects with their sections as contributions.
pub open spec fn finished(image: ObjModel, objects: Seq<ObjModel>) -> Result<
    Seq<ObjModel>,
    ErrorModel,
> {
    outcome::collected(finished_objects(image, objects))
}

pub open spec fn finishable(image: ObjModel, objects: Seq<ObjModel>) -> bool {
    forall|i: int|
        0 <= i < objects.len() && outcome::reached(finished_objects(image, objects), i)
            ==> finishable_object(image, #[trigger] objects[i])
}

fn is_named(name: &String, text: &str) -> (r: bool)
    ensures
        r == (name@ == text@),
{
    *name == String::from_str(text)
}

fn opaque(name: &String) -> (r: bool)
    ensures
        r == is_opaque(name@),
{
    is_named(name, ".edata") || is_named(name, ".idata") || is_named(name, ".reloc") || is_named(
        name,
        ".XEXID",
    ) || is_named(name, ".XBLD") || is_named(name, ".XBMOVIE")
}

fn any_named(sections: &Vec<ObjSection>, text: &str) -> (r: bool)
    ensures
        r == has_section(obj::views(sections@), text@),
{
    let mut i: usize = 0;
    while i < sections.len()
        invariant
            i <= sections.len(),
            forall|j: int| 0 <= j < i ==> (#[trigger] obj::views(sections@)[j]).name != text@,
        decreases sections.len() - i,
    {
        if is_named(&sections[i].name, text) {
            assert(obj::views(sections@)[i as int].name == text@);
            return true;
        }
        i = i + 1;
    }
    false
}

/// A name with an address behind a dollar sign.
pub fn with_address(name: &str, address: u32) -> (r: String)
    ensures
        r@ == dollar_name(name@, address),
{
    let mut r = String::from_str(name);
    proof {
        reveal_strlit("$");
    }
    r.append("$");
    text::push_hex8(&mut r, address);
    assert(r@ =~= dollar_name(name@, address));
    r
}

fn finish_section(image: &ObjInfo, symbols: &Vec<ObjSymbol>, index: usize, section: &mut ObjSection, Ghost(o): Ghost<ObjModel>) -> (r:
    Option<Result<(), RelinkError>>)
    requires
        index < o.sections.len(),
        o.symbols == obj::views(symbols@),
        o.sections[index as int] == old(section)@,
    ensures
        r is Some <==> finishable_section(o, index as int),
        match r {
            None => true,
            Some(Ok(_)) => finished_section(image@, o, index as int) == Ok::<SectionModel, ErrorModel>(
                final(section)@,
            ),
            Some(Err(e)) => finished_section(image@, o, index as int) == Err::<SectionModel, ErrorModel>(
                e@,
            ),
        },
{
    let ghost before = section@;
    // The compiler resolves branches within one contribution itself. Keep these bytes: XDK REL14
    // fixups overflow for large section offsets.
    let mut keep: Vec<bool> = Vec::new();
    let entries = section.relocations.entries();
    let size: u32 = section.size;
    let mut i: usize = 0;
    while i < entries.len()
        invariant
            i <= entries.len(),
            entries@ == before.relocations,
            size == before.size,
            index < o.sections.len(),
            o.sections[index as int] == before,
            o.symbols == obj::views(symbols@),
            section@ == before,
            before == old(section)@,
            forall|j: int|
                0 <= j < i ==> is_finishable(o, index as int, (#[trigger] before.relocations[j]).1),
            keep@ == open_relocations(o.symbols, index as int, before).take(i as int),
        decreases entries.len() - i,
    {
        let reloc = entries[i].1;
        assert(before.relocations[i as int] == entries@[i as int]);
        if reloc.target_symbol >= symbols.len() {
            assert(!is_finishable(o, index as int, before.relocations[i as int].1));
            return None;
        }
        let target = &symbols[reloc.target_symbol];
        assert(o.symbols[reloc.target_symbol as int] == target@);
        let in_section: bool = match target.section {
            Some(s) => s == index,
            None => false,
        };
        let branch: bool = reloc.kind == ObjRelocKind::PpcRel14 || reloc.kind
            == ObjRelocKind::PpcRel24;
        let local: bool = if branch && in_section {
            if reloc.addend > i64::MAX - target.address as i64 {
                assert(!is_finishable(o, index as int, before.relocations[i as int].1));
                return None;
            }
            let place: i64 = target.address as i64 + reloc.addend;
            0 <= place && place < size as i64
        } else {
            false
        };
        assert(local == is_local_branch(o.symbols, index as int, size, reloc));
        keep.push(!local);
        assert(keep@ =~= open_relocations(o.symbols, index as int, before).take(i + 1));
        i = i + 1;
    }
    assert(open_relocations(o.symbols, index as int, before).take(i as int)
        =~= open_relocations(o.symbols, index as int, before));
    let relocations = section.relocations.select(&keep);
    section.relocations = relocations;
    let address: u32 = match section.virtual_address {
        Some(address) => address,
        None => {
            return Some(Err(RelinkError::MissingAddress));
        },
    };
    section.align = 1;
    let is_metadata = opaque(&section.name);
    if is_metadata {
        section.relocations = ObjRelocations::default();
    }
    if is_named(&section.name, ".reloc") && any_named(&image.sections, ".XBLD") {
        // XDK forbids /MERGE:.reloc and otherwise puts opaque relocations before its metadata
        // group. Keep them after .XBLD; the PE container layout can expose their original section
        // separately.
        section.name = with_address(".XBLD", address);
    } else if !is_metadata {
        section.name = with_address(section.name.as_str(), address);
    }
    assert(section@ =~= finished_section(image@, o, index as int)->Ok_0);
    Some(Ok(()))
}

fn finish_object(image: &ObjInfo, object: &mut ObjInfo) -> (r: Option<
    Result<(), RelinkError>,
>)
    ensures
        r is Some <==> finishable_object(image@, old(object)@),
        match r {
            None => true,
            Some(Ok(_)) => finished_object(image@, old(object)@) == Ok::<ObjModel, ErrorModel>(
                final(object)@,
            ),
            Some(Err(e)) => finished_object(image@, old(object)@) == Err::<ObjModel, ErrorModel>(e@),
        },
{
    let ghost before = object@;
    let ghost rs = finished_sections(image@, before);
    let mut i: usize = 0;
    while i < object.sections.len()
        invariant
            i <= object.sections.len(),
            before == old(object)@,
            rs == finished_sections(image@, before),
            forall|j: int| 0 <= j < i ==> #[trigger] finishable_section(before, j),
            object.sections.len() == before.sections.len(),
            object.kind == old(object).kind,
            object.name == old(object).name,
            object.symbols@ == old(object).symbols@,
            forall|j: int|
                0 <= j < i ==> #[trigger] rs[j] == Ok::<SectionModel, ErrorModel>(
                    object.sections@[j]@,
                ),
            forall|j: int|
                i <= j < object.sections.len() ==> (#[trigger] object.sections@[j])@
                    == before.sections[j],
        decreases object.sections.len() - i,
    {
        assert(outcome::reached(rs, i as int));
        assert(rs[i as int] == finished_section(image@, before, i as int));
        assert(object.sections@[i as int]@ == before.sections[i as int]);
        let ghost seen = object.sections@;
        match finish_section(image, &object.symbols, i, &mut object.sections[i], Ghost(before)) {
            None => {
                return None;
            },
            Some(Ok(_)) => {},
            Some(Err(e)) => {
                proof {
                    outcome::lemma_collected_err(rs, i as int, e@);
                    assert forall|j: int|
                        0 <= j < before.sections.len() && outcome::reached(
                            rs,
                            j,
                        ) implies #[trigger] finishable_section(before, j) by {
                        if j > i {
                            assert(rs[i as int] is Ok);
                        }
                    }
                }
                return Some(Err(e));
            },
        }
        proof {
            assert forall|j: int| 0 <= j < object.sections.len() && j != i implies #[trigger] object.sections@[j]
                == seen[j] by {}
        }
        i = i + 1;
    }
    proof {
        outcome::lemma_collected_ok(rs, obj::views(object.sections@));
    }
    Some(Ok(()))
}

/// Turns the sections of the objects into contributions.
pub fn finish_objects(image: &ObjInfo, objects: Vec<ObjInfo>) -> (r: Option<
    Result<Vec<ObjInfo>, RelinkError>,
>)
    ensures
        r is Some <==> finishable(image@, obj::views(objects@)),
        match r {
            None => true,
            Some(Ok(v)) => finished(image@, obj::views(objects@)) == Ok::<Seq<ObjModel>, ErrorModel>(
                obj::views(v@),
            ),
            Some(Err(e)) => finished(image@, obj::views(objects@)) == Err::<
                Seq<ObjModel>,
                ErrorModel,
            >(e@),
        },
{
    let mut linked = objects;
    let ghost before = obj::views(linked@);
    let ghost rs = finished_objects(image@, before);
    let mut i: usize = 0;
    while i < linked.len()
        invariant
            i <= linked.len(),
            before == obj::views(objects@),
            rs == finished_objects(image@, before),
            forall|j: int| 0 <= j < i ==> finishable_object(image@, #[trigger] before[j]),
            linked.len() == before.len(),
            forall|j: int|
                0 <= j < i ==> #[trigger] rs[j] == Ok::<ObjModel, ErrorModel>(linked@[j]@),
            forall|j: int| i <= j < linked.len() ==> (#[trigger] linked@[j])@ == before[j],
        decreases linked.len() - i,
    {
        assert(outcome::reached(rs, i as int));
        assert(linked@[i as int]@ == before[i as int]);
        assert(rs[i as int] == finished_object(image@, before[i as int]));
        let ghost seen = linked@;
        match finish_object(image, &mut linked[i]) {
            None => {
                return None;
            },
            Some(Ok(_)) => {},
            Some(Err(e)) => {
                proof {
                    outcome::lemma_collected_err(rs, i as int, e@);
                    assert forall|j: int|
                        0 <= j < before.len() && outcome::reached(rs, j) implies finishable_object(
                        image@,
                        #[trigger] before[j],
                    ) by {
                        if j > i {
                            assert(rs[i as int] is Ok);
                        }
                    }
                }
                return Some(Err(e));
            },
        }
        proof {
            assert forall|j: int| 0 <= j < linked.len() && j != i implies #[trigger] linked@[j]
                == seen[j] by {}
        }
        i = i + 1;
    }
    proof {
        outcome::lemma_collected_ok(rs, obj::views(linked@));
    }
    Some(Ok(linked))
}

} // verus!

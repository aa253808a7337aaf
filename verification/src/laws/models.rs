//! Laws of the models of symbols, sections, objects and errors: what each says of its value.
use crate::coff_symbols;
use crate::duplicates;
use crate::duplicates::DuplicateName;
use crate::error;
use crate::error::{ErrorModel, RelinkError};
use crate::laws::contents;
use crate::laws::identities;
use crate::laws::spelled;
use crate::obj;
use crate::obj::{
    ObjInfo, ObjModel, ObjSection, ObjSplit, ObjSymbol, ObjSymbolFlagSet, ObjSymbolFlags,
    ObjSymbolScope, SectionModel, SplitModel,
};
use vstd::prelude::*;

verus! {

/// A symbol has in its model what it has in its fields.
pub proof fn law_symbol_model(s: ObjSymbol)
    ensures
        s@.name == s.name@,
        s.demangled_name is None ==> s@.demangled_name is None,
        s.demangled_name matches Some(name) ==> s@.demangled_name == Some(name@),
        s@.address == s.address,
        s@.section == s.section,
        s@.size == s.size,
        s@.size_known == s.size_known,
        s@.flags == s.flags,
        s@.kind == s.kind,
{
}

/// A section has in its model what it has in its fields.
pub proof fn law_section_model(s: ObjSection)
    ensures
        s@.name == s.name@,
        s@.kind == s.kind,
        s@.address == s.address,
        s@.size == s.size,
        s@.data == s.data@,
        s@.align == s.align,
        s@.relocations == s.relocations@,
        s@.virtual_address == s.virtual_address,
        s@.splits == s.splits@,
        s.original_data is None ==> s@.original_data is None,
        s.original_data matches Some(data) ==> s@.original_data == Some(data@),
        s@.original_raw_size == s.original_raw_size,
        s@.original_flags == s.original_flags,
{
}

/// A split has in its model what it has in its fields.
pub proof fn law_split_model(s: ObjSplit)
    ensures
        s@.unit == s.unit@,
        s@.end == s.end,
        s@.align == s.align,
        s@.common == s.common,
        s@.autogenerated == s.autogenerated,
        s@.skip == s.skip,
{
}

/// An object has in its model the models of all its symbols and sections, in order.
pub proof fn law_object_model(o: ObjInfo)
    ensures
        o@.kind == o.kind,
        o@.name == o.name@,
        o@.symbols.len() == o.symbols@.len(),
        forall|i: int| 0 <= i < o.symbols@.len() ==> #[trigger] o@.symbols[i] == o.symbols@[i]@,
        o@.sections.len() == o.sections@.len(),
        forall|i: int| 0 <= i < o.sections@.len() ==> #[trigger] o@.sections[i] == o.sections@[i]@,
{
}

/// The section that holds nothing is zero and empty in every field.
pub proof fn law_empty_section()
    ensures
        obj::empty_section().name.len() == 0,
        obj::empty_section().kind == obj::ObjSectionKind::Code,
        obj::empty_section().address == 0,
        obj::empty_section().size == 0,
        obj::empty_section().data.len() == 0,
        obj::empty_section().align == 0,
        obj::empty_section().relocations.len() == 0,
        obj::empty_section().virtual_address is None,
        obj::empty_section().splits.len() == 0,
        obj::empty_section().original_data is None,
        obj::empty_section().original_raw_size is None,
        obj::empty_section().original_flags is None,
{
}

/// The bit that stands for a flag.
pub open spec fn bit_of(flag: ObjSymbolFlags) -> u32 {
    match flag {
        ObjSymbolFlags::Global => 0x0000_0001,
        ObjSymbolFlags::Local => 0x0000_0002,
        ObjSymbolFlags::Weak => 0x0000_0004,
        ObjSymbolFlags::Common => 0x0000_0008,
        ObjSymbolFlags::Hidden => 0x0000_0010,
        ObjSymbolFlags::CoffExternal => 0x8000_0000,
    }
}

/// A set of flags holds those whose bits are set. Adding one sets its bit, and changes no other.
pub proof fn law_flag_bits(set: ObjSymbolFlagSet, flag: ObjSymbolFlags, other: ObjSymbolFlags)
    ensures
        flag.mask() == bit_of(flag),
        set.has(flag) <==> set.0 & bit_of(flag) != 0,
        set.with(flag).has(flag),
        other != flag ==> (set.with(flag).has(other) <==> set.has(other)),
        set.with(flag).0 == set.0 | bit_of(flag),
{
    let f = set.0;
    let a = bit_of(flag);
    let b = bit_of(other);
    assert((f | a) & a == a) by (bit_vector);
    assert(a & b == 0 ==> (f | a) & b == f & b) by (bit_vector);
    assert(0x1u32 & 0x2u32 == 0 && 0x1u32 & 0x4u32 == 0 && 0x1u32 & 0x8u32 == 0 && 0x1u32 & 0x10u32
        == 0 && 0x1u32 & 0x8000_0000u32 == 0 && 0x2u32 & 0x1u32 == 0 && 0x2u32 & 0x4u32 == 0
        && 0x2u32 & 0x8u32 == 0 && 0x2u32 & 0x10u32 == 0 && 0x2u32 & 0x8000_0000u32 == 0 && 0x4u32
        & 0x1u32 == 0 && 0x4u32 & 0x2u32 == 0 && 0x4u32 & 0x8u32 == 0 && 0x4u32 & 0x10u32 == 0
        && 0x4u32 & 0x8000_0000u32 == 0 && 0x8u32 & 0x1u32 == 0 && 0x8u32 & 0x2u32 == 0 && 0x8u32
        & 0x4u32 == 0 && 0x8u32 & 0x10u32 == 0 && 0x8u32 & 0x8000_0000u32 == 0 && 0x10u32 & 0x1u32
        == 0 && 0x10u32 & 0x2u32 == 0 && 0x10u32 & 0x4u32 == 0 && 0x10u32 & 0x8u32 == 0 && 0x10u32
        & 0x8000_0000u32 == 0 && 0x8000_0000u32 & 0x1u32 == 0 && 0x8000_0000u32 & 0x2u32 == 0
        && 0x8000_0000u32 & 0x4u32 == 0 && 0x8000_0000u32 & 0x8u32 == 0 && 0x8000_0000u32
        & 0x10u32 == 0) by (bit_vector);
}

/// A scope is the only one of its set, and all that is no scope stays.
pub proof fn law_scopes(set: ObjSymbolFlagSet)
    ensures
        set.scoped(ObjSymbolScope::Unknown).0 == set.0 & 0xFFFF_FFF8,
        set.scoped(ObjSymbolScope::Global).0 == (set.0 & 0xFFFF_FFF8) | 0x1,
        set.scoped(ObjSymbolScope::Local).0 == (set.0 & 0xFFFF_FFF8) | 0x2,
        set.scoped(ObjSymbolScope::Weak).0 == (set.0 & 0xFFFF_FFF8) | 0x4,
{
    let f = set.0;
    assert(f & !0x7u32 == f & 0xFFFF_FFF8u32) by (bit_vector);
}

/// A split owns an address if and only if it is the last that starts at or before it, and reaches
/// past it.
pub proof fn law_splits_own_addresses(splits: Seq<(u32, SplitModel)>, a: u32, p: int)
    ensures
        identities::owns(splits, p, a) ==> obj::owner(splits, a) == Some(splits[p]),
        obj::owner(splits, a) is Some ==> exists|q: int| #[trigger]
            identities::owns(splits, q, a) && splits[q] == obj::owner(splits, a)->0,
{
    identities::lemma_owner(splits, a);
}

/// The section at an address is the first that covers it. Where there is none, none does.
pub proof fn law_section_at_address(sections: Seq<SectionModel>, a: u32)
    ensures
        match obj::section_at(sections, a, 0) {
            Some(k) => contents::is_first_at(sections, a, k),
            None => forall|k: int|
                0 <= k < sections.len() ==> !contents::covers(#[trigger] sections[k], a),
        },
{
    contents::lemma_none_at(sections, a, 0);
}

/// Whether relocation `k` of section `s` has a target, and that stands in a section, if in any.
pub open spec fn resolves(image: ObjModel, s: int, k: int) -> bool {
    let target = image.sections[s].relocations[k].1.target_symbol;
    &&& target < image.symbols.len()
    &&& image.symbols[target as int].section is Some ==> image.symbols[target as int].section->0
        < image.sections.len()
}

/// The relocations of an image resolve if and only if each of them does.
pub proof fn law_relocations_resolve(image: ObjModel)
    ensures
        coff_symbols::relocations_resolve(image) <==> forall|s: int, k: int|
            0 <= s < image.sections.len() && 0 <= k < image.sections[s].relocations.len()
                ==> #[trigger] resolves(image, s, k),
{
    if forall|s: int, k: int|
        0 <= s < image.sections.len() && 0 <= k < image.sections[s].relocations.len()
            ==> #[trigger] resolves(image, s, k) {
        assert forall|s: int, k: int|
            #![trigger image.sections[s].relocations[k]]
            0 <= s < image.sections.len() && 0 <= k < image.sections[s].relocations.len() implies {
            let target = image.sections[s].relocations[k].1.target_symbol;
            &&& target < image.symbols.len()
            &&& image.symbols[target as int].section matches Some(t) ==> t < image.sections.len()
        } by {
            assert(resolves(image, s, k));
        }
    }
    if coff_symbols::relocations_resolve(image) {
        assert forall|s: int, k: int|
            0 <= s < image.sections.len() && 0 <= k < image.sections[s].relocations.len() implies #[trigger] resolves(
            image,
            s,
            k,
        ) by {
            assert(image.sections[s].relocations[k].1.target_symbol < image.symbols.len());
        }
    }
}

/// An error says what is wrong, and where.
pub proof fn law_messages(a: u32, b: u32, unit: Seq<char>, n: nat)
    ensures
        error::message_text(ErrorModel::DuplicateRelocation(a)) == Some(
            "Duplicate relocation at 0x"@ + spelled::address_text(a),
        ),
        error::message_text(ErrorModel::NoSectionAt(a)) == Some(
            "No section at address 0x"@ + spelled::address_text(a),
        ),
        error::message_text(ErrorModel::RangeOutsideSection(a, b)) == Some(
            "Section does not contain range 0x"@ + spelled::address_text(a) + "-0x"@
                + spelled::address_text(b),
        ),
        error::message_text(ErrorModel::RelocationInZeroFill) == Some(
            "Relocation in zero-fill tail"@,
        ),
        error::message_text(ErrorModel::MissingAddress) == Some("Missing contribution VA"@),
        error::message_text(ErrorModel::NotConcrete(unit)) == Some(
            "Link mode requires concrete contributions: "@ + unit,
        ),
        error::message_text(ErrorModel::Parse) is None,
        error::message_text(ErrorModel::UnexpectedAuxRecord) == Some(
            "Unexpected existing COFF function auxiliary record"@,
        ),
        error::message_text(ErrorModel::InvalidRelocationSymbol(n as int)) == Some(
            "Invalid COFF relocation symbol index "@ + spelled::count_text(n),
        ),
{
    spelled::law_address_spelling(a);
    spelled::law_address_spelling(b);
    spelled::law_count_spelling(n);
}

/// An error has in its model its reason, and what it names.
pub proof fn law_error_model(e: RelinkError)
    ensures
        match e {
            RelinkError::DuplicateRelocation(a) => e@ == ErrorModel::DuplicateRelocation(a),
            RelinkError::NoSectionAt(a) => e@ == ErrorModel::NoSectionAt(a),
            RelinkError::RangeOutsideSection(a, b) => e@ == ErrorModel::RangeOutsideSection(a, b),
            RelinkError::RelocationInZeroFill => e@ == ErrorModel::RelocationInZeroFill,
            RelinkError::MissingAddress => e@ == ErrorModel::MissingAddress,
            RelinkError::NotConcrete(unit) => e@ == ErrorModel::NotConcrete(unit@),
            RelinkError::Parse(_) => e@ == ErrorModel::Parse,
            RelinkError::UnexpectedAuxRecord => e@ == ErrorModel::UnexpectedAuxRecord,
            RelinkError::InvalidRelocationSymbol(i) => e@ == ErrorModel::InvalidRelocationSymbol(
                i as int,
            ),
        },
{
}

/// A duplicate name has in its model its name and its addresses.
pub proof fn law_duplicate_model(d: DuplicateName)
    ensures
        d@.name == d.name@,
        d@.addresses == d.addresses@,
{
}

/// The warning for a name gives the name, then its addresses.
pub proof fn law_warning(name: Seq<char>, addresses: Seq<u32>)
    ensures
        duplicates::warning_text(name, addresses) == "Duplicate COFF name "@ + name + ": "@
            + duplicates::shown_addresses(addresses),
{
}

} // verus!

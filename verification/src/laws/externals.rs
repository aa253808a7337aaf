//! Laws of the symbols that other objects see.
use crate::coff_symbols;
use crate::laws::names;
use crate::naming;
use crate::obj::{ObjModel, ObjSymbolFlagSet, ObjSymbolFlags, SymbolModel};
use vstd::prelude::*;

verus! {

/// Promotion makes a symbol a COFF external that is not local. A local symbol becomes global;
/// flags that are no scope stay; and promoting again changes nothing.
pub proof fn law_promotion(flags: ObjSymbolFlagSet)
    ensures
        coff_symbols::promoted(flags).has(ObjSymbolFlags::CoffExternal),
        !coff_symbols::promoted(flags).has(ObjSymbolFlags::Local),
        flags.has(ObjSymbolFlags::Local) ==> coff_symbols::promoted(flags).has(
            ObjSymbolFlags::Global,
        ),
        !flags.has(ObjSymbolFlags::Local) ==> coff_symbols::promoted(flags) == flags.with(
            ObjSymbolFlags::CoffExternal,
        ),
        coff_symbols::promoted(flags).has(ObjSymbolFlags::Common) == flags.has(
            ObjSymbolFlags::Common,
        ),
        coff_symbols::promoted(flags).has(ObjSymbolFlags::Hidden) == flags.has(
            ObjSymbolFlags::Hidden,
        ),
        coff_symbols::promoted(coff_symbols::promoted(flags)) == coff_symbols::promoted(flags),
{
    let f = flags.0;
    let scoped: u32 = (f & !0x7u32) | 0x1u32;
    let a: u32 = f | 0x8000_0000u32;
    let b: u32 = scoped | 0x8000_0000u32;
    assert(a & 0x8000_0000u32 != 0 && a & 0x2u32 == f & 0x2u32 && a & 0x8u32 == f & 0x8u32 && a
        & 0x10u32 == f & 0x10u32 && a | 0x8000_0000u32 == a) by (bit_vector)
        requires
            a == f | 0x8000_0000u32,
    ;
    assert(b & 0x8000_0000u32 != 0 && b & 0x2u32 == 0 && b & 0x1u32 != 0 && b & 0x8u32 == f & 0x8u32
        && b & 0x10u32 == f & 0x10u32 && b | 0x8000_0000u32 == b) by (bit_vector)
        requires
            scoped == (f & !0x7u32) | 0x1u32,
            b == scoped | 0x8000_0000u32,
    ;
}

/// Symbols that agree in place are needed by other units alike.
proof fn lemma_needed_alike(image: ObjModel, a: Seq<SymbolModel>, b: Seq<SymbolModel>, i: int)
    requires
        0 <= i < a.len(),
        a[i].section == b[i].section,
        a[i].address == b[i].address,
        coff_symbols::is_external(image.sections, a, i),
        !coff_symbols::is_crt_entry(a[i]),
    ensures
        coff_symbols::is_external(image.sections, b, i),
{
    let sections = image.sections;
    let (s, k) = choose|s: int, k: int|
        #![trigger coff_symbols::needs(sections, a, s, k, i)]
        0 <= s < sections.len() && 0 <= k < sections[s].relocations.len() && coff_symbols::needs(
            sections,
            a,
            s,
            k,
            i,
        );
    assert(coff_symbols::needs(sections, b, s, k, i));
}

/// The target of a relocation that crosses units is a COFF external that is not local, whatever it
/// was.
pub proof fn law_cross_unit_targets_are_external(image: ObjModel, s: int, k: int)
    requires
        coff_symbols::relocations_resolve(image),
        0 <= s < image.sections.len(),
        0 <= k < image.sections[s].relocations.len(),
        coff_symbols::crosses_units(image.sections, image.symbols, s, k),
    ensures
        ({
            let target = image.sections[s].relocations[k].1.target_symbol as int;
            let after = coff_symbols::prepared(image).symbols[target];
            &&& after.flags.has(ObjSymbolFlags::CoffExternal)
            &&& !after.flags.has(ObjSymbolFlags::Local)
        }),
{
    let target = image.sections[s].relocations[k].1.target_symbol as int;
    assert(image.sections[s].relocations[k].1.target_symbol < image.symbols.len());
    assert(coff_symbols::needs(image.sections, image.symbols, s, k, target));
    law_promotion(image.symbols[target].flags);
}

/// Every entry of a register save or restore routine of the C runtime is a COFF external that is not
/// local, whether or not the image refers to it, and also where it gets a new spelling.
pub proof fn law_crt_entries_are_external(image: ObjModel, i: int)
    requires
        0 <= i < image.symbols.len(),
        coff_symbols::is_crt_entry(image.symbols[i]),
    ensures
        coff_symbols::prepared(image).symbols[i].flags.has(ObjSymbolFlags::CoffExternal),
        !coff_symbols::prepared(image).symbols[i].flags.has(ObjSymbolFlags::Local),
{
    law_promotion(image.symbols[i].flags);
}

/// A symbol keeps its flags unless it is an entry of the C runtime or another unit refers to it.
pub proof fn law_other_flags_stay(image: ObjModel, i: int)
    requires
        0 <= i < image.symbols.len(),
        coff_symbols::prepared(image).symbols[i].flags != image.symbols[i].flags,
    ensures
        coff_symbols::is_exported(
            image.sections,
            image.symbols,
            naming::renamed(image.symbols),
            i,
        ),
{
}

/// Preparing an image that was prepared changes nothing.
pub proof fn law_preparation_is_idempotent(image: ObjModel)
    ensures
        coff_symbols::prepared(coff_symbols::prepared(image)) == coff_symbols::prepared(image),
{
    let once = coff_symbols::prepared(image);
    let twice = coff_symbols::prepared(once);
    let first = naming::renamed(image.symbols);
    names::law_prepared_is_unambiguous(image);
    assert forall|i: int| 0 <= i < once.symbols.len() implies !#[trigger] naming::displaced(
        once.symbols,
        i,
    ) by {}
    assert(naming::renamed(once.symbols) =~= once.symbols);
    assert forall|i: int| 0 <= i < once.symbols.len() implies twice.symbols[i] == once.symbols[i] by {
        assert(coff_symbols::is_crt_entry(once.symbols[i]) == coff_symbols::is_crt_entry(first[i]));
        if coff_symbols::is_external(image.sections, once.symbols, i)
            && !coff_symbols::is_crt_entry(once.symbols[i]) {
            lemma_needed_alike(image, once.symbols, image.symbols, i);
        }
        law_promotion(first[i].flags);
    }
    assert(twice.symbols =~= once.symbols);
}

} // verus!

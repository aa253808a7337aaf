//! Image-wide COFF identities, prepared before names are serialized or split.
use crate::error::RelinkError;
use crate::naming;
use crate::obj;
use crate::obj::{
    ObjInfo, ObjModel, ObjSection, ObjSymbol, ObjSymbolFlagSet, ObjSymbolFlags, ObjSymbolKind,
    ObjSymbolScope, SectionModel, SymbolModel,
};
use crate::text;
use vstd::prelude::*;
use vstd::string::{StrSliceExecFns, StringExecFns};

verus! {

/// A name without its qualification for `address`, which may have a counter behind it.
pub open spec fn layout_name(name: Seq<char>, address: u32) -> Seq<char> {
    let suffix = naming::qualifier(address);
    if text::has_suffix(name, suffix) {
        name.take(name.len() - suffix.len())
    } else {
        match text::last_position(name, '_') {
            Some(i) => if text::is_u32_text(name.skip(i + 1)) && text::has_suffix(
                name.take(i),
                suffix,
            ) {
                name.take(i - suffix.len())
            } else {
                name
            },
            None => name,
        }
    }
}

/// Keeps legacy auto-split boundaries on subsequent reads of qualified names.
/// This is only a layout key; it must never be used to resolve a relocation.
pub fn original_name<'a>(name: &'a str, address: u32) -> (r: &'a str)
    ensures
        r@ == layout_name(name@, address),
{
    proof {
        reveal_strlit("_");
        text::lemma_hex_digits_len(address as nat, 8);
    }
    let mut suffix = String::from_str("_");
    text::push_hex8(&mut suffix, address);
    assert(suffix@ =~= naming::qualifier(address));
    let chars = text::chars_of(name);
    assert(name@.take(name@.len() as int) =~= name@);
    if text::ends_with(&chars, chars.len(), suffix.as_str()) {
        return name.substring_char(0, chars.len() - naming::QUALIFIER_LEN);
    }
    if let Some(i) = text::find_last(&chars, '_') {
        if text::is_u32_at(&chars, i + 1) {
            if text::ends_with(&chars, i, suffix.as_str()) {
                return name.substring_char(0, i - naming::QUALIFIER_LEN);
            }
        }
    }
    name
}

/// Whether `name` is `prefix` and a number.
pub open spec fn is_numbered(name: Seq<char>, prefix: Seq<char>) -> bool {
    text::has_prefix(name, prefix) && text::is_u32_text(name.skip(prefix.len() as int))
}

/// Whether a symbol is an entry of a register save or restore routine of the C runtime.
pub open spec fn is_crt_entry(s: SymbolModel) -> bool {
    &&& s.section is Some
    &&& s.kind == ObjSymbolKind::Unknown
    &&& {
        ||| is_numbered(s.name, "__savegprlr_"@)
        ||| is_numbered(s.name, "__restgprlr_"@)
        ||| is_numbered(s.name, "__savefpr_"@)
        ||| is_numbered(s.name, "__restfpr_"@)
        ||| is_numbered(s.name, "__savevmx_"@)
        ||| is_numbered(s.name, "__restvmx_"@)
    }
}

/// Whether relocation `k` of section `s` goes from a split of one unit to a split of another, with
/// both units among the objects.
pub open spec fn crosses_units(
    sections: Seq<SectionModel>,
    syms: Seq<SymbolModel>,
    s: int,
    k: int,
) -> bool {
    let site = sections[s].relocations[k].0;
    let target = syms[sections[s].relocations[k].1.target_symbol as int];
    &&& target.section matches Some(t)
    &&& obj::owner(sections[s].splits, site) matches Some(source)
    &&& obj::owner(sections[t as int].splits, target.address) matches Some(destination)
    &&& !source.1.skip
    &&& !destination.1.skip
    &&& source.1.unit != destination.1.unit
}

/// Whether relocation `k` of section `s` needs symbol `i` from another object.
pub open spec fn needs(
    sections: Seq<SectionModel>,
    syms: Seq<SymbolModel>,
    s: int,
    k: int,
    i: int,
) -> bool {
    sections[s].relocations[k].1.target_symbol == i && crosses_units(sections, syms, s, k)
}

/// Whether symbol `i` must be visible to other objects: as an entry of the C runtime, or because
/// another unit refers to it.
pub open spec fn is_external(sections: Seq<SectionModel>, syms: Seq<SymbolModel>, i: int) -> bool {
    ||| is_crt_entry(syms[i])
    ||| exists|s: int, k: int|
        #![trigger needs(sections, syms, s, k, i)]
        0 <= s < sections.len() && 0 <= k < sections[s].relocations.len() && needs(
            sections,
            syms,
            s,
            k,
            i,
        )
}

/// The flags of a symbol that other objects see: global where it was local, and a COFF external.
pub open spec fn promoted(flags: ObjSymbolFlagSet) -> ObjSymbolFlagSet {
    let scoped = if flags.has(ObjSymbolFlags::Local) {
        flags.scoped(ObjSymbolScope::Global)
    } else {
        flags
    };
    scoped.with(ObjSymbolFlags::CoffExternal)
}

/// Whether symbol `i` is made visible to other objects. An entry of the C runtime is told by the
/// spelling before or after definitions are renamed, so that one at a second address is not lost.
pub open spec fn is_exported(
    sections: Seq<SectionModel>,
    before: Seq<SymbolModel>,
    after: Seq<SymbolModel>,
    i: int,
) -> bool {
    is_external(sections, before, i) || is_crt_entry(after[i])
}

/// The symbols `after` renaming those `before`, with the flags that other objects need.
pub open spec fn externalized(
    sections: Seq<SectionModel>,
    before: Seq<SymbolModel>,
    after: Seq<SymbolModel>,
) -> Seq<SymbolModel> {
    Seq::new(
        after.len(),
        |i: int|
            if is_exported(sections, before, after, i) {
                SymbolModel { flags: promoted(after[i].flags), ..after[i] }
            } else {
                after[i]
            },
    )
}

/// The image with one identity per definition. Sections, and with them relocations, stay.
pub open spec fn prepared(image: ObjModel) -> ObjModel {
    ObjModel {
        symbols: externalized(image.sections, image.symbols, naming::renamed(image.symbols)),
        ..image
    }
}

/// Whether the target of every relocation is a symbol, and its section, if any, is a section.
pub open spec fn relocations_resolve(image: ObjModel) -> bool {
    forall|s: int, k: int|
        #![trigger image.sections[s].relocations[k]]
        0 <= s < image.sections.len() && 0 <= k < image.sections[s].relocations.len() ==> {
            let target = image.sections[s].relocations[k].1.target_symbol;
            &&& target < image.symbols.len()
            &&& image.symbols[target as int].section matches Some(t) ==> t < image.sections.len()
        }
}

fn numbered(name: &Vec<char>, prefix: &str) -> (r: bool)
    ensures
        r == is_numbered(name@, prefix@),
{
    if !text::starts_with(name, prefix) {
        return false;
    }
    text::is_u32_at(name, prefix.unicode_len())
}

fn crt_entry(symbol: &ObjSymbol) -> (r: bool)
    ensures
        r == is_crt_entry(symbol@),
{
    if symbol.section.is_none() || symbol.kind != ObjSymbolKind::Unknown {
        return false;
    }
    let name = text::chars_of(symbol.name.as_str());
    numbered(&name, "__savegprlr_") || numbered(&name, "__restgprlr_") || numbered(
        &name,
        "__savefpr_",
    ) || numbered(&name, "__restfpr_") || numbered(&name, "__savevmx_") || numbered(
        &name,
        "__restvmx_",
    )
}

/// Whether a relocation at `site` of `section` to `target` crosses units.
fn crossing(sections: &Vec<ObjSection>, section: &ObjSection, site: u32, target: &ObjSymbol) -> (r: bool)
    requires
        target.section matches Some(t) ==> t < sections.len(),
    ensures
        r == {
            &&& target.section matches Some(t)
            &&& obj::owner(section@.splits, site) matches Some(source)
            &&& obj::owner(sections@[t as int]@.splits, target.address) matches Some(destination)
            &&& !source.1.skip
            &&& !destination.1.skip
            &&& source.1.unit != destination.1.unit
        },
{
    let target_section = match target.section {
        Some(t) => t,
        None => {
            return false;
        },
    };
    let source = section.splits.for_address(site);
    let destination = sections[target_section].splits.for_address(target.address);
    match source {
        Some(source) => match destination {
            Some(destination) => !source.1.skip && !destination.1.skip && source.1.unit
                != destination.1.unit,
            None => false,
        },
        None => false,
    }
}

/// Which symbols must be visible to other objects.
fn external_symbols(sections: &Vec<ObjSection>, symbols: &Vec<ObjSymbol>) -> (r: Vec<bool>)
    requires
        forall|s: int, k: int|
            #![trigger sections@[s]@.relocations[k]]
            0 <= s < sections.len() && 0 <= k < sections@[s]@.relocations.len() ==> {
                let target = sections@[s]@.relocations[k].1.target_symbol;
                &&& target < symbols.len()
                &&& symbols@[target as int].section matches Some(t) ==> t < sections.len()
            },
    ensures
        r.len() == symbols.len(),
        forall|i: int|
            0 <= i < r.len() ==> #[trigger] r@[i] == is_external(
                obj::views(sections@),
                obj::views(symbols@),
                i,
            ),
{
    let ghost secs = obj::views(sections@);
    let ghost syms = obj::views(symbols@);
    let mut r: Vec<bool> = Vec::new();
    let mut i: usize = 0;
    while i < symbols.len()
        invariant
            i <= symbols.len(),
            syms == obj::views(symbols@),
            r.len() == i,
            forall|j: int| 0 <= j < i ==> #[trigger] r@[j] == is_crt_entry(syms[j]),
        decreases symbols.len() - i,
    {
        r.push(crt_entry(&symbols[i]));
        i = i + 1;
    }
    let mut s: usize = 0;
    while s < sections.len()
        invariant
            s <= sections.len(),
            secs == obj::views(sections@),
            syms == obj::views(symbols@),
            r.len() == symbols.len(),
            forall|a: int, k: int|
                #![trigger sections@[a]@.relocations[k]]
                0 <= a < sections.len() && 0 <= k < sections@[a]@.relocations.len() ==> {
                    let target = sections@[a]@.relocations[k].1.target_symbol;
                    &&& target < symbols.len()
                    &&& symbols@[target as int].section matches Some(t) ==> t < sections.len()
                },
            forall|j: int|
                0 <= j < r.len() ==> #[trigger] r@[j] == (is_crt_entry(syms[j]) || exists|a: int, k: int|
                    #![trigger needs(secs, syms, a, k, j)]
                    0 <= a < s && 0 <= k < secs[a].relocations.len() && needs(secs, syms, a, k, j)),
        decreases sections.len() - s,
    {
        let section = &sections[s];
        let entries = section.relocations.entries();
        assert(secs[s as int] == section@);
        let mut n: usize = 0;
        while n < entries.len()
            invariant
                s < sections.len(),
                n <= entries.len(),
                secs == obj::views(sections@),
                syms == obj::views(symbols@),
                secs[s as int] == section@,
                sections@[s as int]@ == section@,
                entries@ == section@.relocations,
                r.len() == symbols.len(),
                forall|a: int, k: int|
                    #![trigger sections@[a]@.relocations[k]]
                    0 <= a < sections.len() && 0 <= k < sections@[a]@.relocations.len() ==> {
                        let target = sections@[a]@.relocations[k].1.target_symbol;
                        &&& target < symbols.len()
                        &&& symbols@[target as int].section matches Some(t) ==> t < sections.len()
                    },
                forall|j: int|
                    0 <= j < r.len() ==> #[trigger] r@[j] == (is_crt_entry(syms[j])
                        || exists|a: int, k: int|
                        #![trigger needs(secs, syms, a, k, j)]
                        0 <= a <= s && 0 <= k < secs[a].relocations.len() && (a < s || k < n)
                            && needs(secs, syms, a, k, j)),
            decreases entries.len() - n,
        {
            let (site, reloc) = entries[n];
            assert(sections@[s as int]@.relocations[n as int] == (site, reloc));
            let target = &symbols[reloc.target_symbol];
            let ghost before = r@;
            let crosses = crossing(sections, section, site, target);
            assert(crosses == crosses_units(secs, syms, s as int, n as int));
            if crosses {
                r.set(reloc.target_symbol, true);
            }
            proof {
                assert forall|j: int| 0 <= j < r.len() implies #[trigger] r@[j] == (is_crt_entry(
                    syms[j],
                ) || exists|a: int, k: int|
                    #![trigger needs(secs, syms, a, k, j)]
                    0 <= a <= s && 0 <= k < secs[a].relocations.len() && (a < s || k < n + 1)
                        && needs(secs, syms, a, k, j)) by {
                    assert(before[j] == (is_crt_entry(syms[j]) || exists|a: int, k: int|
                        #![trigger needs(secs, syms, a, k, j)]
                        0 <= a <= s && 0 <= k < secs[a].relocations.len() && (a < s || k < n)
                            && needs(secs, syms, a, k, j)));
                    if crosses && j == reloc.target_symbol {
                        assert(needs(secs, syms, s as int, n as int, j));
                    } else if r@[j] == false {
                        if needs(secs, syms, s as int, n as int, j) {
                            assert(false);
                        }
                    }
                }
            }
            n = n + 1;
        }
        s = s + 1;
    }
    r
}

/// Whether the target of every relocation is a symbol, and its section, if any, is a section.
pub fn has_resolved_relocations(image: &ObjInfo) -> (r: bool)
    ensures
        r == relocations_resolve(image@),
{
    let ghost model = image@;
    let mut s: usize = 0;
    while s < image.sections.len()
        invariant
            s <= image.sections.len(),
            model == image@,
            forall|i: int, k: int|
                #![trigger model.sections[i].relocations[k]]
                0 <= i < s && 0 <= k < model.sections[i].relocations.len() ==> {
                    let target = model.sections[i].relocations[k].1.target_symbol;
                    &&& target < model.symbols.len()
                    &&& model.symbols[target as int].section matches Some(t) ==> t
                        < model.sections.len()
                },
        decreases image.sections.len() - s,
    {
        let entries = image.sections[s].relocations.entries();
        assert(entries@ == model.sections[s as int].relocations);
        let mut k: usize = 0;
        while k < entries.len()
            invariant
                s < image.sections.len(),
                k <= entries.len(),
                model == image@,
                entries@ == model.sections[s as int].relocations,
                forall|i: int|
                    #![trigger model.sections[s as int].relocations[i]]
                    0 <= i < k ==> {
                        let target = model.sections[s as int].relocations[i].1.target_symbol;
                        &&& target < model.symbols.len()
                        &&& model.symbols[target as int].section matches Some(t) ==> t
                            < model.sections.len()
                    },
            decreases entries.len() - k,
        {
            let target: usize = entries[k].1.target_symbol;
            assert(model.sections[s as int].relocations[k as int].1.target_symbol == target);
            if target >= image.symbols.len() {
                return false;
            }
            assert(model.symbols[target as int] == image.symbols@[target as int]@);
            if let Some(t) = image.symbols[target].section {
                if t >= image.sections.len() {
                    return false;
                }
            }
            k = k + 1;
        }
        s = s + 1;
    }
    true
}

/// The lowest address keeps the input spelling. Other addresses get `_XXXXXXXX`.
/// Unlike `$XXXXXXXX`, this survives objdiff's numeric-dollar normalization.
pub fn prepare_coff_symbols(image: &mut ObjInfo) -> (r: Result<(), RelinkError>)
    requires
        relocations_resolve(old(image)@),
    ensures
        r is Ok,
        final(image)@ == prepared(old(image)@),
{
    let ghost start = image@;
    proof {
        assert forall|s: int, k: int|
            #![trigger image.sections@[s]@.relocations[k]]
            0 <= s < image.sections.len() && 0 <= k < image.sections@[s]@.relocations.len() implies {
            let target = image.sections@[s]@.relocations[k].1.target_symbol;
            &&& target < image.symbols.len()
            &&& image.symbols@[target as int].section matches Some(t) ==> t < image.sections.len()
        } by {
            assert(start.sections[s] == image.sections@[s]@);
            let target = start.sections[s].relocations[k].1.target_symbol;
            assert(target < start.symbols.len());
            assert(image.symbols@[target as int]@ == start.symbols[target as int]);
        }
    }
    // Use relocation indices and split ownership, never a lookup by spelling.
    let external = external_symbols(&image.sections, &image.symbols);
    let names = naming::choose_names(&image.symbols);
    let mut i: usize = 0;
    while i < names.len()
        invariant
            i <= names.len(),
            names.len() == image.symbols.len(),
            image.symbols.len() == start.symbols.len(),
            image.sections@ == old(image).sections@,
            image.kind == old(image).kind,
            image.name == old(image).name,
            start == old(image)@,
            forall|j: int|
                0 <= j < names.len() ==> (match #[trigger] names@[j] {
                    Some(name) => naming::displaced(start.symbols, j) && name@ == naming::new_name(
                        start.symbols,
                        j,
                    ),
                    None => !naming::displaced(start.symbols, j),
                }),
            forall|j: int|
                0 <= j < image.symbols.len() ==> (#[trigger] image.symbols@[j])@ == (if j < i {
                    naming::renamed(start.symbols)[j]
                } else {
                    start.symbols[j]
                }),
        decreases names.len() - i,
    {
        match &names[i] {
            Some(name) => {
                let mut symbol = image.symbols[i].clone();
                symbol.name = name.clone();
                symbol.demangled_name = None;
                image.symbols.set(i, symbol);
            },
            None => {},
        }
        i = i + 1;
    }
    let ghost syms = naming::renamed(start.symbols);
    assert(obj::views(image.symbols@) =~= syms);
    let mut j: usize = 0;
    while j < external.len()
        invariant
            j <= external.len(),
            external.len() == image.symbols.len(),
            image.symbols.len() == syms.len(),
            image.sections@ == old(image).sections@,
            image.kind == old(image).kind,
            image.name == old(image).name,
            start == old(image)@,
            syms == naming::renamed(start.symbols),
            forall|k: int|
                0 <= k < external.len() ==> #[trigger] external@[k] == is_external(
                    start.sections,
                    start.symbols,
                    k,
                ),
            forall|k: int|
                0 <= k < image.symbols.len() ==> (#[trigger] image.symbols@[k])@ == (if k < j {
                    externalized(start.sections, start.symbols, syms)[k]
                } else {
                    syms[k]
                }),
        decreases external.len() - j,
    {
        if external[j] || crt_entry(&image.symbols[j]) {
            let mut symbol = image.symbols[j].clone();
            // Existing unique label and CRT spellings already identify an address.
            // Preserve them so compiler-generated references resolve without libcMT.
            if symbol.flags.is_local() {
                symbol.flags.set_scope(ObjSymbolScope::Global);
            }
            symbol.flags.insert(ObjSymbolFlags::CoffExternal);
            image.symbols.set(j, symbol);
        }
        j = j + 1;
    }
    assert(obj::views(image.symbols@) =~= externalized(start.sections, start.symbols, syms));
    Ok(())
}

} // verus!

//! What preparation gives each symbol of an image, told from the image alone.
use crate::coff_symbols;
use crate::duplicates;
use crate::duplicates::DuplicateModel;
use crate::laws::names;
use crate::laws::spelled;
use crate::naming;
use crate::obj;
use crate::obj::{ObjModel, ObjSymbolKind, SectionModel, SplitModel, SymbolModel};
use crate::text;
use vstd::prelude::*;

verus! {

/// Whether a symbol stands for a place in the image: a function, an object or a label with a
/// section.
pub open spec fn is_place(s: SymbolModel) -> bool {
    s.section is Some && (s.kind == ObjSymbolKind::Function || s.kind == ObjSymbolKind::Object
        || s.kind == ObjSymbolKind::Unknown)
}

/// A name with an address behind it.
pub open spec fn qualified(name: Seq<char>, address: u32) -> Seq<char> {
    name + seq!['_'] + spelled::address_text(address)
}

/// A qualified name, with the counter `n` behind it unless that is 0.
pub open spec fn numbered(name: Seq<char>, address: u32, n: nat) -> Seq<char> {
    if n == 0 {
        qualified(name, address)
    } else {
        qualified(name, address) + seq!['_'] + spelled::count_text(n)
    }
}

/// Whether some symbol is spelled `name`.
pub open spec fn in_use(syms: Seq<SymbolModel>, name: Seq<char>) -> bool {
    exists|m: int| 0 <= m < syms.len() && (#[trigger] syms[m]).name == name
}

proof fn lemma_place(s: SymbolModel)
    ensures
        naming::is_definition(s) <==> is_place(s),
{
}

proof fn lemma_numbered(name: Seq<char>, address: u32, n: nat)
    ensures
        naming::candidate(name + naming::qualifier(address), n) == numbered(name, address, n),
{
    spelled::law_address_spelling(address);
    spelled::law_count_spelling(n);
    assert(name + naming::qualifier(address) =~= qualified(name, address));
}

/// After preparation two places share a spelling exactly where they shared spelling and address
/// before. So a spelling names one address.
pub proof fn law_spelling_names_one_address(image: ObjModel, i: int, j: int)
    requires
        0 <= i < image.symbols.len(),
        0 <= j < image.symbols.len(),
        is_place(image.symbols[i]),
        is_place(image.symbols[j]),
    ensures
        coff_symbols::prepared(image).symbols[i].name == coff_symbols::prepared(
            image,
        ).symbols[j].name <==> image.symbols[i].name == image.symbols[j].name
            && image.symbols[i].address == image.symbols[j].address,
        is_place(coff_symbols::prepared(image).symbols[i]),
        coff_symbols::prepared(image).symbols[i].address == image.symbols[i].address,
{
    names::law_spelling_is_identity(image, i, j);
}

/// Whether a symbol comes before another by spelling, or where they share it by address.
pub open spec fn comes_before(a: SymbolModel, b: SymbolModel) -> bool {
    ||| a.name != b.name && spelled::sorts_first(a.name, b.name)
    ||| a.name == b.name && a.address < b.address
}

/// Of places that share a spelling, each that is not at the lowest address gets a new one: its
/// address goes behind it, and behind that the first counter for which the spelling is free: each
/// before it is one of the image, or was given to a place that comes before. No symbol of the image
/// was spelled so. The demangled name goes.
pub proof fn law_higher_addresses_get_new_spellings(image: ObjModel, i: int, j: int) -> (n: nat)
    requires
        0 <= i < image.symbols.len(),
        0 <= j < image.symbols.len(),
        is_place(image.symbols[i]),
        is_place(image.symbols[j]),
        image.symbols[j].name == image.symbols[i].name,
        image.symbols[j].address < image.symbols[i].address,
    ensures
        coff_symbols::prepared(image).symbols[i].name == numbered(
            image.symbols[i].name,
            image.symbols[i].address,
            n,
        ),
        coff_symbols::prepared(image).symbols[i].name != image.symbols[i].name,
        !in_use(image.symbols, coff_symbols::prepared(image).symbols[i].name),
        coff_symbols::prepared(image).symbols[i].demangled_name is None,
        forall|m: nat|
            m < n ==> {
                ||| in_use(
                    image.symbols,
                    #[trigger] numbered(image.symbols[i].name, image.symbols[i].address, m),
                )
                ||| exists|x: int|
                    0 <= x < image.symbols.len() && is_place(image.symbols[x]) && comes_before(
                        image.symbols[x],
                        image.symbols[i],
                    ) && (#[trigger] coff_symbols::prepared(image).symbols[x]).name == numbered(
                        image.symbols[i].name,
                        image.symbols[i].address,
                        m,
                    )
            },
{
    let syms = image.symbols;
    let after = coff_symbols::prepared(image).symbols;
    assert(naming::is_definition(syms[j]));
    assert(naming::displaced(syms, i));
    let n = names::law_first_free_spelling(image, i);
    let name = syms[i].name;
    let address = syms[i].address;
    lemma_numbered(name, address, n);
    assert(after[i].name != name) by {
        assert(after[i].name.len() > name.len());
    }
    names::law_new_spellings_are_fresh(image, i);
    assert forall|m: nat| m < n implies {
        ||| in_use(syms, #[trigger] numbered(name, address, m))
        ||| exists|x: int|
            0 <= x < syms.len() && is_place(syms[x]) && comes_before(syms[x], syms[i]) && (
            #[trigger] after[x]).name == numbered(name, address, m)
    } by {
        lemma_numbered(name, address, m);
        let c = naming::candidate(name + naming::qualifier(address), m);
        if naming::spellings(syms).contains(c) {
            lemma_spelling_in_use(syms, c);
        } else {
            assert(names::is_given_before(image, i, c));
            let x = choose|x: int|
                0 <= x < syms.len() && naming::displaced(syms, x) && naming::key_lt(
                    naming::key(syms[x]),
                    naming::key(syms[i]),
                ) && (#[trigger] after[x]).name == c;
            spelled::law_name_order(syms[x].name, name);
            assert(comes_before(syms[x], syms[i]));
            assert(after[x].name == numbered(name, address, m));
        }
    }
    n
}

proof fn lemma_spelling_in_use(syms: Seq<SymbolModel>, name: Seq<char>)
    requires
        naming::spellings(syms).contains(name),
    ensures
        in_use(syms, name),
{
    let all = syms.map_values(|s: SymbolModel| s.name);
    let m = choose|m: int| 0 <= m < all.len() && all[m] == name;
    assert(syms[m].name == name);
}

/// A place at the lowest address of its spelling keeps spelling and demangled name, and so does a
/// symbol that is no place.
pub proof fn law_other_symbols_keep_spellings(image: ObjModel, i: int)
    requires
        0 <= i < image.symbols.len(),
        is_place(image.symbols[i]) ==> forall|j: int|
            0 <= j < image.symbols.len() && is_place(#[trigger] image.symbols[j])
                && image.symbols[j].name == image.symbols[i].name ==> image.symbols[i].address
                <= image.symbols[j].address,
    ensures
        coff_symbols::prepared(image).symbols[i].name == image.symbols[i].name,
        coff_symbols::prepared(image).symbols[i].demangled_name == image.symbols[i].demangled_name,
{
    let syms = image.symbols;
    if naming::displaced(syms, i) {
        let j = choose|j: int|
            0 <= j < syms.len() && naming::is_definition(#[trigger] syms[j]) && syms[j].name
                == syms[i].name && syms[j].address < syms[i].address;
        assert(is_place(syms[j]));
    }
}

/// The layout key of a name: an address behind it is dropped, also with a number behind that. All
/// other names are their own key.
pub proof fn law_layout_key(name: Seq<char>, address: u32, base: Seq<char>, number: Seq<char>)
    ensures
        name == qualified(base, address) ==> coff_symbols::layout_name(name, address) == base,
        (forall|b: Seq<char>| name != #[trigger] qualified(b, address)) && name == qualified(
            base,
            address,
        ) + seq!['_'] + number && spelled::is_numeral(number) ==> coff_symbols::layout_name(
            name,
            address,
        ) == base,
        (forall|b: Seq<char>| name != #[trigger] qualified(b, address)) && (forall|
            b: Seq<char>,
            c: Seq<char>,
        |
            spelled::is_numeral(c) ==> name != #[trigger] (qualified(b, address) + seq!['_'] + c))
            ==> coff_symbols::layout_name(name, address) == name,
{
    let q = naming::qualifier(address);
    spelled::law_address_spelling(address);
    assert forall|b: Seq<char>| #[trigger] qualified(b, address) == b + q by {
        assert(qualified(b, address) =~= b + q);
    }
    if name == qualified(base, address) {
        assert(name.skip(name.len() - q.len()) =~= q);
        assert(name.take(name.len() - q.len()) =~= base);
    }
    if text::has_suffix(name, q) {
        assert(name =~= name.take(name.len() - q.len()) + q);
        assert(name == qualified(name.take(name.len() - q.len()), address));
    } else {
        if name == qualified(base, address) + seq!['_'] + number && spelled::is_numeral(number) {
            let stem = qualified(base, address);
            lemma_numeral_chars(number);
            text::lemma_last_position(stem, '_', number);
            assert(name.skip(stem.len() as int + 1) =~= number);
            assert(name.take(stem.len() as int) =~= stem);
            spelled::law_numerals(number);
            assert(stem.skip(stem.len() - q.len()) =~= q);
            assert(name.take(stem.len() - q.len()) =~= base);
        }
        if let Some(i) = text::last_position(name, '_') {
            lemma_last(name, '_');
            let c = name.skip(i + 1);
            let stem = name.take(i);
            if text::is_u32_text(c) && text::has_suffix(stem, q) {
                spelled::law_numerals(c);
                let b = stem.take(stem.len() - q.len());
                assert(stem =~= b + q);
                assert(stem == qualified(b, address));
                assert(name =~= qualified(b, address) + seq!['_'] + c);
            }
        }
    }
}

proof fn lemma_numeral_chars(s: Seq<char>)
    requires
        spelled::is_numeral(s),
    ensures
        forall|i: int| 0 <= i < s.len() ==> #[trigger] s[i] != '_',
{
    let rest = s.skip(1);
    assert forall|i: int| 0 <= i < s.len() implies #[trigger] s[i] != '_' by {
        if !spelled::is_number(s) && i > 0 {
            assert(rest[i - 1] == s[i]);
        }
    }
}

proof fn lemma_last(s: Seq<char>, c: char)
    ensures
        text::last_position(s, c) matches Some(i) ==> 0 <= i < s.len() && s[i] == c,
    decreases s.len(),
{
    if s.len() > 0 && s.last() != c {
        lemma_last(s.drop_last(), c);
    }
}

/// Whether split `p` owns address `a`: it is the last that starts at or before it, and reaches past
/// it.
pub open spec fn owns(splits: Seq<(u32, SplitModel)>, p: int, a: u32) -> bool {
    &&& 0 <= p < splits.len()
    &&& splits[p].0 <= a < splits[p].1.end
    &&& forall|q: int| p < q < splits.len() ==> (#[trigger] splits[q]).0 > a
}

pub proof fn lemma_owner(splits: Seq<(u32, SplitModel)>, a: u32)
    ensures
        match obj::owner(splits, a) {
            Some(x) => exists|p: int| #[trigger] owns(splits, p, a) && splits[p] == x,
            None => forall|p: int| !#[trigger] owns(splits, p, a),
        },
        forall|p: int| #[trigger] owns(splits, p, a) ==> obj::owner(splits, a) == Some(splits[p]),
    decreases splits.len(),
{
    if splits.len() > 0 {
        let rest = splits.drop_last();
        let last = splits.len() - 1;
        lemma_owner(rest, a);
        if splits.last().0 <= a {
            if splits.last().1.end > a {
                assert(owns(splits, last, a));
            }
            assert forall|p: int| #[trigger] owns(splits, p, a) implies p == last by {
                if p < last {
                    assert(splits[last].0 > a);
                }
            }
        } else {
            assert forall|p: int| #[trigger] owns(splits, p, a) <==> owns(rest, p, a) by {
                if owns(rest, p, a) {
                    assert forall|q: int| p < q < splits.len() implies (#[trigger] splits[q]).0
                        > a by {
                        if q < last {
                            assert(rest[q].0 > a);
                        }
                    }
                }
                if owns(splits, p, a) {
                    assert(p != last);
                    assert forall|q: int| p < q < rest.len() implies (#[trigger] rest[q]).0 > a by {
                        assert(splits[q].0 > a);
                    }
                }
            }
            if let Some(x) = obj::owner(rest, a) {
                let p = choose|p: int| #[trigger] owns(rest, p, a) && rest[p] == x;
                assert(owns(splits, p, a) && splits[p] == x);
            }
        }
    }
}

/// Whether `p` and `q` are splits of two units, both among the objects, and the first owns `site`,
/// the second `place`.
pub open spec fn parts_units(
    from: SectionModel,
    site: u32,
    to: SectionModel,
    place: u32,
    p: int,
    q: int,
) -> bool {
    &&& owns(from.splits, p, site)
    &&& owns(to.splits, q, place)
    &&& !from.splits[p].1.skip
    &&& !to.splits[q].1.skip
    &&& from.splits[p].1.unit != to.splits[q].1.unit
}

/// Whether relocation `k` of section `s` goes to symbol `i`, from one unit to another.
pub open spec fn refers_across(image: ObjModel, s: int, k: int, i: int) -> bool {
    &&& 0 <= s < image.sections.len()
    &&& 0 <= k < image.sections[s].relocations.len()
    &&& image.sections[s].relocations[k].1.target_symbol == i
    &&& image.symbols[i].section is Some
    &&& exists|p: int, q: int| #[trigger]
        parts_units(
            image.sections[s],
            image.sections[s].relocations[k].0,
            image.sections[image.symbols[i].section->0 as int],
            image.symbols[i].address,
            p,
            q,
        )
}

/// Whether a symbol is a label with a section that is named `prefix` and a number.
pub open spec fn is_entry(s: SymbolModel, prefix: Seq<char>) -> bool {
    &&& s.section is Some
    &&& s.kind == ObjSymbolKind::Unknown
    &&& exists|c: Seq<char>| spelled::is_numeral(c) && s.name == #[trigger] (prefix + c)
}

/// Whether a symbol is an entry of one of the six register save and restore routines.
pub open spec fn is_runtime_entry(s: SymbolModel) -> bool {
    ||| is_entry(s, "__savegprlr_"@)
    ||| is_entry(s, "__restgprlr_"@)
    ||| is_entry(s, "__savefpr_"@)
    ||| is_entry(s, "__restfpr_"@)
    ||| is_entry(s, "__savevmx_"@)
    ||| is_entry(s, "__restvmx_"@)
}

proof fn lemma_entry(s: SymbolModel, prefix: Seq<char>)
    requires
        s.section is Some,
        s.kind == ObjSymbolKind::Unknown,
    ensures
        coff_symbols::is_numbered(s.name, prefix) <==> is_entry(s, prefix),
{
    let n = prefix.len() as int;
    if coff_symbols::is_numbered(s.name, prefix) {
        let c = s.name.skip(n);
        spelled::law_numerals(c);
        assert(s.name =~= prefix + c);
    }
    if is_entry(s, prefix) {
        let c = choose|c: Seq<char>| spelled::is_numeral(c) && s.name == #[trigger] (prefix + c);
        spelled::law_numerals(c);
        assert(s.name.skip(n) =~= c);
        assert(s.name.take(n) =~= prefix);
    }
}

proof fn lemma_runtime_entry(s: SymbolModel)
    ensures
        coff_symbols::is_crt_entry(s) <==> is_runtime_entry(s),
{
    if s.section is Some && s.kind == ObjSymbolKind::Unknown {
        lemma_entry(s, "__savegprlr_"@);
        lemma_entry(s, "__restgprlr_"@);
        lemma_entry(s, "__savefpr_"@);
        lemma_entry(s, "__restfpr_"@);
        lemma_entry(s, "__savevmx_"@);
        lemma_entry(s, "__restvmx_"@);
    }
}

proof fn lemma_across(image: ObjModel, s: int, k: int, i: int)
    requires
        0 <= s < image.sections.len(),
        0 <= k < image.sections[s].relocations.len(),
    ensures
        coff_symbols::needs(image.sections, image.symbols, s, k, i) <==> refers_across(
            image,
            s,
            k,
            i,
        ),
{
    if image.sections[s].relocations[k].1.target_symbol == i && image.symbols[i].section is Some {
        let from = image.sections[s];
        let to = image.sections[image.symbols[i].section->0 as int];
        let site = from.relocations[k].0;
        let place = image.symbols[i].address;
        lemma_owner(from.splits, site);
        lemma_owner(to.splits, place);
        if coff_symbols::needs(image.sections, image.symbols, s, k, i) {
            let x = obj::owner(from.splits, site)->0;
            let y = obj::owner(to.splits, place)->0;
            let p = choose|p: int| #[trigger] owns(from.splits, p, site) && from.splits[p] == x;
            let q = choose|q: int| #[trigger] owns(to.splits, q, place) && to.splits[q] == y;
            assert(parts_units(from, site, to, place, p, q));
        }
        if refers_across(image, s, k, i) {
            let (p, q) = choose|p: int, q: int| #[trigger]
                parts_units(from, site, to, place, p, q);
            assert(owns(from.splits, p, site) && owns(to.splits, q, place));
        }
    }
}

/// Whether symbol `i` is to be seen by other objects: as an entry of a save or restore routine, by
/// its old or its new spelling, or because a relocation of another unit goes to it.
pub open spec fn is_seen(image: ObjModel, i: int) -> bool {
    ||| is_runtime_entry(image.symbols[i])
    ||| is_runtime_entry(
        SymbolModel {
            name: coff_symbols::prepared(image).symbols[i].name,
            ..image.symbols[i]
        },
    )
    ||| exists|s: int, k: int| #[trigger] refers_across(image, s, k, i)
}

/// The flags after preparation. A symbol that other objects see has the external bit; where it was
/// local, it is global in place of every other scope. All other bits, and all bits of other symbols,
/// stay.
pub proof fn law_flags(image: ObjModel, i: int)
    requires
        0 <= i < image.symbols.len(),
    ensures
        ({
            let f = image.symbols[i].flags.0;
            coff_symbols::prepared(image).symbols[i].flags.0 == (if !is_seen(image, i) {
                f
            } else if f & 2 != 0 {
                (f & 0xFFFF_FFF8) | 0x8000_0001
            } else {
                f | 0x8000_0000
            })
        }),
{
    let f = image.symbols[i].flags.0;
    let before = image.symbols;
    let renamed = naming::renamed(before);
    let after = coff_symbols::prepared(image).symbols;
    let respelled = SymbolModel { name: after[i].name, ..before[i] };
    assert(((f & !7u32) | 1u32) | 0x8000_0000u32 == (f & 0xFFFF_FFF8u32) | 0x8000_0001u32)
        by (bit_vector);
    lemma_runtime_entry(before[i]);
    lemma_runtime_entry(respelled);
    assert(coff_symbols::is_crt_entry(renamed[i]) == coff_symbols::is_crt_entry(respelled));
    if coff_symbols::is_external(image.sections, before, i) && !coff_symbols::is_crt_entry(
        before[i],
    ) {
        let (s, k) = choose|s: int, k: int|
            #![trigger coff_symbols::needs(image.sections, before, s, k, i)]
            0 <= s < image.sections.len() && 0 <= k < image.sections[s].relocations.len()
                && coff_symbols::needs(image.sections, before, s, k, i);
        lemma_across(image, s, k, i);
        assert(refers_across(image, s, k, i));
    }
    if exists|s: int, k: int| #[trigger] refers_across(image, s, k, i) {
        let (s, k) = choose|s: int, k: int| #[trigger] refers_across(image, s, k, i);
        lemma_across(image, s, k, i);
        assert(coff_symbols::needs(image.sections, before, s, k, i));
    }
}

/// All numeric entries of the save and restore routines are external after preparation.
pub proof fn law_runtime_entries_are_external(image: ObjModel, i: int, number: Seq<char>)
    requires
        0 <= i < image.symbols.len(),
        image.symbols[i].section is Some,
        image.symbols[i].kind == ObjSymbolKind::Unknown,
        spelled::is_numeral(number),
        ({
            ||| image.symbols[i].name == "__savegprlr_"@ + number
            ||| image.symbols[i].name == "__restgprlr_"@ + number
            ||| image.symbols[i].name == "__savefpr_"@ + number
            ||| image.symbols[i].name == "__restfpr_"@ + number
            ||| image.symbols[i].name == "__savevmx_"@ + number
            ||| image.symbols[i].name == "__restvmx_"@ + number
        }),
    ensures
        coff_symbols::prepared(image).symbols[i].flags.0 & 0x8000_0000 != 0,
        coff_symbols::prepared(image).symbols[i].flags.0 & 2 == 0,
{
    law_flags(image, i);
    assert(is_runtime_entry(image.symbols[i]));
    let f = image.symbols[i].flags.0;
    assert(((f & 0xFFFF_FFF8u32) | 0x8000_0001u32) & 0x8000_0000u32 != 0 && ((f & 0xFFFF_FFF8u32)
        | 0x8000_0001u32) & 2u32 == 0) by (bit_vector);
    assert((f | 0x8000_0000u32) & 0x8000_0000u32 != 0) by (bit_vector);
    assert(f & 2u32 == 0 ==> (f | 0x8000_0000u32) & 2u32 == 0) by (bit_vector);
}

/// Whether some place is spelled `name` and stands at `a`.
pub open spec fn stands_at(syms: Seq<SymbolModel>, name: Seq<char>, a: u32) -> bool {
    exists|i: int|
        0 <= i < syms.len() && is_place(#[trigger] syms[i]) && syms[i].name == name
            && syms[i].address == a
}

/// A report lists exactly the names that stand at two addresses or more, each once and in order,
/// with all of its addresses in order.
pub proof fn law_reports_list_duplicates(
    syms: Seq<SymbolModel>,
    report: Seq<DuplicateModel>,
    e: int,
    name: Seq<char>,
    a: u32,
    b: u32,
)
    requires
        duplicates::is_duplicate_report(syms, report),
    ensures
        0 <= e < report.len() ==> (report[e].addresses.contains(a) <==> stands_at(
            syms,
            report[e].name,
            a,
        )),
        0 <= e < report.len() ==> report[e].addresses.len() >= 2,
        0 <= e < report.len() ==> forall|x: int, y: int|
            0 <= x < y < report[e].addresses.len() ==> #[trigger] report[e].addresses[x]
                < #[trigger] report[e].addresses[y],
        0 <= e < report.len() - 1 ==> spelled::sorts_first(report[e].name, report[e + 1].name)
            && report[e].name != report[e + 1].name,
        a != b && stands_at(syms, name, a) && stands_at(syms, name, b) ==> exists|x: int|
            0 <= x < report.len() && (#[trigger] report[x]).name == name,
{
    assert forall|n: Seq<char>, x: u32| stands_at(syms, n, x) <==> #[trigger] duplicates::defined_at(
        syms,
        n,
        x,
    ) by {
        if stands_at(syms, n, x) {
            let i = choose|i: int|
                0 <= i < syms.len() && is_place(#[trigger] syms[i]) && syms[i].name == n
                    && syms[i].address == x;
            assert(naming::is_definition(syms[i]));
        }
        if duplicates::defined_at(syms, n, x) {
            let i = choose|i: int|
                0 <= i < syms.len() && naming::is_definition(#[trigger] syms[i]) && syms[i].name
                    == n && syms[i].address == x;
            assert(is_place(syms[i]));
        }
    }
    if 0 <= e < report.len() - 1 {
        spelled::law_name_order(report[e].name, report[e + 1].name);
    }
    if 0 <= e < report.len() {
        assert(duplicates::defined_at(syms, report[e].name, a) <==> stands_at(
            syms,
            report[e].name,
            a,
        ));
    }
    assert(duplicates::defined_at(syms, name, a) <==> stands_at(syms, name, a));
    assert(duplicates::defined_at(syms, name, b) <==> stands_at(syms, name, b));
}

/// A warning shows each address as `0x` and its digits, with commas between them.
pub proof fn law_warnings_show_addresses(addresses: Seq<u32>, a: u32)
    ensures
        duplicates::shown_addresses(Seq::empty()) == Seq::<char>::empty(),
        duplicates::shown_addresses(addresses.push(a)) == (if addresses.len() == 0 {
            "0x"@ + spelled::address_text(a)
        } else {
            duplicates::shown_addresses(addresses) + ", 0x"@ + spelled::address_text(a)
        }),
{
    reveal_strlit("0x");
    reveal_strlit(", 0x");
    spelled::law_address_spelling(a);
    assert(addresses.push(a).drop_last() =~= addresses);
    if addresses.len() == 0 {
        assert(duplicates::shown_addresses(addresses.push(a)) =~= "0x"@ + spelled::address_text(a));
    } else {
        assert(duplicates::shown_addresses(addresses.push(a)) =~= duplicates::shown_addresses(
            addresses,
        ) + ", 0x"@ + spelled::address_text(a));
    }
}

} // verus!

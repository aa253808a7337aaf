//! Laws of the names that definitions get.
use crate::coff_symbols;
use crate::duplicates;
use crate::duplicates::DuplicateModel;
use crate::naming;
use crate::naming::DefinitionKey;
use crate::obj::{ObjModel, SymbolModel};
use crate::text;
use vstd::prelude::*;

verus! {

/// Whether no two definitions at different addresses are spelled alike.
pub open spec fn unambiguous(syms: Seq<SymbolModel>) -> bool {
    forall|i: int, j: int|
        #![trigger syms[i], syms[j]]
        0 <= i < syms.len() && 0 <= j < syms.len() && naming::is_definition(syms[i])
            && naming::is_definition(syms[j]) && syms[i].name == syms[j].name ==> syms[i].address
            == syms[j].address
}

/// Whether some definition has the key `k`.
pub open spec fn defines(syms: Seq<SymbolModel>, k: DefinitionKey) -> bool {
    exists|i: int|
        0 <= i < syms.len() && naming::is_definition(#[trigger] syms[i]) && naming::key(syms[i]) == k
}

proof fn lemma_new_names(keys: Seq<DefinitionKey>, taken: Set<Seq<char>>)
    requires
        taken.finite(),
    ensures
        naming::new_names(keys, taken).len() == keys.len(),
        forall|p: int|
            #![trigger naming::new_names(keys, taken)[p]]
            0 <= p < keys.len() ==> {
                let before = taken.union(naming::new_names(keys, taken).take(p).to_set());
                &&& before.finite()
                &&& !before.contains(naming::new_names(keys, taken)[p])
                &&& naming::new_names(keys, taken)[p] == naming::free_name(
                    naming::stem(keys[p]),
                    before,
                )
            },
    decreases keys.len(),
{
    if keys.len() > 0 {
        let names = naming::new_names(keys, taken);
        let earlier = naming::new_names(keys.drop_last(), taken);
        let last = keys.len() - 1;
        lemma_new_names(keys.drop_last(), taken);
        assert forall|p: int| 0 <= p < keys.len() implies {
            let before = taken.union(names.take(p).to_set());
            &&& before.finite()
            &&& !before.contains(#[trigger] names[p])
            &&& names[p] == naming::free_name(naming::stem(keys[p]), before)
        } by {
            if p < last {
                assert(names.take(p) =~= earlier.take(p));
                assert(names[p] == earlier[p]);
            } else {
                assert(names.take(p) =~= earlier);
                vstd::seq_lib::seq_to_set_is_finite(earlier);
                naming::lemma_collisions(
                    naming::stem(keys[p]),
                    taken.union(earlier.to_set()),
                );
            }
        }
    }
}

/// Where the key of a displaced definition stands among the new names.
proof fn lemma_place(syms: Seq<SymbolModel>, i: int) -> (p: int)
    requires
        0 <= i < syms.len(),
        naming::displaced(syms, i),
    ensures
        0 <= p < naming::rename_order(syms).len(),
        naming::rename_order(syms)[p] == naming::key(syms[i]),
        naming::new_names(naming::rename_order(syms), naming::spellings(syms)).len()
            == naming::rename_order(syms).len(),
        naming::new_name(syms, i) == naming::new_names(
            naming::rename_order(syms),
            naming::spellings(syms),
        )[p],
{
    let keys = naming::rename_order(syms);
    naming::lemma_rename_order(syms);
    naming::lemma_new_names_len(keys, naming::spellings(syms));
    assert(keys.contains(naming::key(syms[i])));
    keys.index_of(naming::key(syms[i]))
}

proof fn lemma_spellings_finite(syms: Seq<SymbolModel>)
    ensures
        naming::spellings(syms).finite(),
        forall|i: int|
            0 <= i < syms.len() ==> naming::spellings(syms).contains((#[trigger] syms[i]).name),
{
    let names = syms.map_values(|s: SymbolModel| s.name);
    vstd::seq_lib::seq_to_set_is_finite(names);
    assert forall|i: int| 0 <= i < syms.len() implies naming::spellings(syms).contains(
        (#[trigger] syms[i]).name,
    ) by {
        assert(names[i] == syms[i].name);
    }
}

/// Displaced definitions share a new spelling exactly where they share a key.
proof fn lemma_new_name_key(syms: Seq<SymbolModel>, i: int, j: int)
    requires
        0 <= i < syms.len(),
        0 <= j < syms.len(),
        naming::displaced(syms, i),
        naming::displaced(syms, j),
    ensures
        naming::new_name(syms, i) == naming::new_name(syms, j) <==> naming::key(syms[i])
            == naming::key(syms[j]),
{
    let keys = naming::rename_order(syms);
    let taken = naming::spellings(syms);
    let names = naming::new_names(keys, taken);
    let p = lemma_place(syms, i);
    let q = lemma_place(syms, j);
    lemma_spellings_finite(syms);
    lemma_new_names(keys, taken);
    if names[p] == names[q] {
        if p < q {
            assert(names.take(q)[p] == names[p]);
            assert(taken.union(names.take(q).to_set()).contains(names[p]));
        } else if q < p {
            assert(names.take(p)[q] == names[q]);
            assert(taken.union(names.take(p).to_set()).contains(names[q]));
        }
    }
}

proof fn lemma_fresh(syms: Seq<SymbolModel>, i: int)
    requires
        0 <= i < syms.len(),
        naming::displaced(syms, i),
    ensures
        forall|j: int|
            0 <= j < syms.len() ==> (#[trigger] syms[j]).name != naming::new_name(syms, i),
{
    let p = lemma_place(syms, i);
    lemma_spellings_finite(syms);
    lemma_new_names(naming::rename_order(syms), naming::spellings(syms));
}

/// A spelling that preparation gives to a definition is new: no symbol of the image had it.
pub proof fn law_new_spellings_are_fresh(image: ObjModel, i: int)
    requires
        0 <= i < image.symbols.len(),
        coff_symbols::prepared(image).symbols[i].name != image.symbols[i].name,
    ensures
        forall|j: int|
            0 <= j < image.symbols.len() ==> (#[trigger] image.symbols[j]).name
                != coff_symbols::prepared(image).symbols[i].name,
{
    lemma_fresh(image.symbols, i);
}

/// After preparation two definitions share a spelling exactly where they shared spelling and
/// address before. So a spelling names one address, and aliases at one address stay aliases.
pub proof fn law_spelling_is_identity(image: ObjModel, i: int, j: int)
    requires
        0 <= i < image.symbols.len(),
        0 <= j < image.symbols.len(),
        naming::is_definition(image.symbols[i]),
        naming::is_definition(image.symbols[j]),
    ensures
        coff_symbols::prepared(image).symbols[i].name == coff_symbols::prepared(
            image,
        ).symbols[j].name <==> naming::key(image.symbols[i]) == naming::key(image.symbols[j]),
{
    let syms = image.symbols;
    if naming::displaced(syms, i) && naming::displaced(syms, j) {
        lemma_new_name_key(syms, i, j);
    } else if naming::displaced(syms, i) {
        lemma_fresh(syms, i);
    } else if naming::displaced(syms, j) {
        lemma_fresh(syms, j);
    }
}

/// After preparation no spelling is defined at two addresses.
pub proof fn law_prepared_is_unambiguous(image: ObjModel)
    ensures
        unambiguous(coff_symbols::prepared(image).symbols),
{
    let after = coff_symbols::prepared(image).symbols;
    assert forall|i: int, j: int|
        #![trigger after[i], after[j]]
        0 <= i < after.len() && 0 <= j < after.len() && naming::is_definition(after[i])
            && naming::is_definition(after[j]) && after[i].name == after[j].name implies after[i].address
        == after[j].address by {
        law_spelling_is_identity(image, i, j);
    }
}

/// A definition at the lowest address of its spelling keeps the spelling, and so does a symbol
/// that is no definition.
pub proof fn law_lowest_address_keeps_spelling(image: ObjModel, i: int)
    requires
        0 <= i < image.symbols.len(),
        naming::is_definition(image.symbols[i]) ==> forall|j: int|
            0 <= j < image.symbols.len() && naming::is_definition(#[trigger] image.symbols[j])
                && image.symbols[j].name == image.symbols[i].name ==> image.symbols[i].address
                <= image.symbols[j].address,
    ensures
        coff_symbols::prepared(image).symbols[i].name == image.symbols[i].name,
        coff_symbols::prepared(image).symbols[i].demangled_name == image.symbols[i].demangled_name,
{
}

/// Preparation changes spellings and flags only. Symbols keep their indices and places, and
/// sections, with their relocations, stay as they are.
pub proof fn law_only_spellings_and_flags_change(image: ObjModel)
    ensures
        coff_symbols::prepared(image).kind == image.kind,
        coff_symbols::prepared(image).name == image.name,
        coff_symbols::prepared(image).sections == image.sections,
        coff_symbols::prepared(image).symbols.len() == image.symbols.len(),
        forall|i: int|
            0 <= i < image.symbols.len() ==> {
                let after = #[trigger] coff_symbols::prepared(image).symbols[i];
                let before = image.symbols[i];
                &&& after.address == before.address
                &&& after.section == before.section
                &&& after.size == before.size
                &&& after.size_known == before.size_known
                &&& after.kind == before.kind
                &&& after.demangled_name == before.demangled_name || after.demangled_name is None
            },
{
}

/// A definition that is not at the lowest address of its spelling gets its address behind the
/// spelling, unless that is in use: by a symbol of the image, or by a definition that got it.
pub proof fn law_address_qualifies_spelling(image: ObjModel, i: int)
    requires
        0 <= i < image.symbols.len(),
        naming::displaced(image.symbols, i),
        forall|j: int|
            0 <= j < image.symbols.len() ==> (#[trigger] image.symbols[j]).name != naming::stem(
                naming::key(image.symbols[i]),
            ),
        forall|j: int|
            0 <= j < image.symbols.len() && naming::key(image.symbols[j]) != naming::key(
                image.symbols[i],
            ) ==> #[trigger] coff_symbols::prepared(image).symbols[j].name != naming::stem(
                naming::key(image.symbols[i]),
            ),
    ensures
        coff_symbols::prepared(image).symbols[i].name == image.symbols[i].name
            + naming::qualifier(image.symbols[i].address),
{
    let syms = image.symbols;
    let keys = naming::rename_order(syms);
    let taken = naming::spellings(syms);
    let names = naming::new_names(keys, taken);
    let stem = naming::stem(naming::key(syms[i]));
    let p = lemma_place(syms, i);
    lemma_spellings_finite(syms);
    lemma_new_names(keys, taken);
    naming::lemma_rename_order(syms);
    let before = taken.union(names.take(p).to_set());
    assert(!before.contains(stem)) by {
        if taken.contains(stem) {
            let all = syms.map_values(|s: SymbolModel| s.name);
            let j = choose|j: int| 0 <= j < all.len() && all[j] == stem;
            assert(syms[j].name == stem);
        }
        if names.take(p).to_set().contains(stem) {
            let q = choose|q: int| 0 <= q < p && names.take(p)[q] == stem;
            assert(keys.contains(keys[q]));
            let j = choose|j: int|
                0 <= j < syms.len() && #[trigger] naming::displaced(syms, j) && naming::key(syms[j])
                    == keys[q];
            let r = lemma_place(syms, j);
            if q != r {
                assert(keys[q] == keys[r]);
            }
            assert(naming::key_lt(keys[q], keys[p]));
            assert(coff_symbols::prepared(image).symbols[j].name == names[q]);
        }
    }
    naming::lemma_collisions(stem, before);
    assert(naming::candidate(stem, 0) == stem);
    assert(naming::collisions(stem, before) == 0) by {
        let n = naming::collisions(stem, before);
        if n > 0 {
            assert(before.contains(naming::candidate(stem, 0)));
        }
    }
}

/// Whether `name` is the new spelling of a definition that is renamed before definition `i`.
pub open spec fn is_given_before(image: ObjModel, i: int, name: Seq<char>) -> bool {
    exists|j: int|
        0 <= j < image.symbols.len() && naming::displaced(image.symbols, j) && naming::key_lt(
            naming::key(image.symbols[j]),
            naming::key(image.symbols[i]),
        ) && (#[trigger] coff_symbols::prepared(image).symbols[j]).name == name
}

/// A new spelling is the first that is free: the old one with the address behind it, and a counter
/// from 1 up behind that. Each that comes earlier is the spelling of a symbol of the image, or of
/// another definition.
pub proof fn law_first_free_spelling(image: ObjModel, i: int) -> (n: nat)
    requires
        0 <= i < image.symbols.len(),
        naming::displaced(image.symbols, i),
    ensures
        coff_symbols::prepared(image).symbols[i].name == naming::candidate(
            image.symbols[i].name + naming::qualifier(image.symbols[i].address),
            n,
        ),
        forall|m: nat|
            m < n ==> {
                ||| naming::spellings(image.symbols).contains(
                    #[trigger] naming::candidate(
                        image.symbols[i].name + naming::qualifier(image.symbols[i].address),
                        m,
                    ),
                )
                ||| naming::spellings(coff_symbols::prepared(image).symbols).contains(
                    naming::candidate(
                        image.symbols[i].name + naming::qualifier(image.symbols[i].address),
                        m,
                    ),
                )
            },
        forall|m: nat|
            m < n ==> naming::spellings(image.symbols).contains(
                #[trigger] naming::candidate(
                    image.symbols[i].name + naming::qualifier(image.symbols[i].address),
                    m,
                ),
            ) || is_given_before(
                image,
                i,
                naming::candidate(
                    image.symbols[i].name + naming::qualifier(image.symbols[i].address),
                    m,
                ),
            ),
{
    let syms = image.symbols;
    let after = coff_symbols::prepared(image).symbols;
    let keys = naming::rename_order(syms);
    let taken = naming::spellings(syms);
    let names = naming::new_names(keys, taken);
    let stem = naming::stem(naming::key(syms[i]));
    let p = lemma_place(syms, i);
    lemma_spellings_finite(syms);
    lemma_spellings_finite(after);
    lemma_new_names(keys, taken);
    naming::lemma_rename_order(syms);
    let before = taken.union(names.take(p).to_set());
    naming::lemma_collisions(stem, before);
    let n = naming::collisions(stem, before);
    assert forall|m: nat| m < n implies {
        ||| taken.contains(#[trigger] naming::candidate(stem, m))
        ||| naming::spellings(after).contains(naming::candidate(stem, m)) && is_given_before(
            image,
            i,
            naming::candidate(stem, m),
        )
    } by {
        let c = naming::candidate(stem, m);
        assert(before.contains(c));
        if !taken.contains(c) {
            let q = choose|q: int| 0 <= q < p && names.take(p)[q] == c;
            assert(keys.contains(keys[q]));
            let j = choose|j: int|
                0 <= j < syms.len() && #[trigger] naming::displaced(syms, j) && naming::key(syms[j])
                    == keys[q];
            let r = lemma_place(syms, j);
            if q < r {
                assert(naming::key_lt(keys[q], keys[r]));
            } else if r < q {
                assert(naming::key_lt(keys[r], keys[q]));
            }
            assert(after[j].name == c);
            assert(naming::key_lt(keys[q], keys[p]));
            assert(is_given_before(image, i, c));
        }
    }
    n
}

/// Spellings that are unambiguous stay as they are. What was prepared is: so reading back its
/// definitions, in any order and with any flags, and preparing them again changes no spelling.
pub proof fn law_spellings_settle(image: ObjModel, reloaded: ObjModel)
    requires
        forall|i: int|
            0 <= i < reloaded.symbols.len() && naming::is_definition(
                #[trigger] reloaded.symbols[i],
            ) ==> defines(coff_symbols::prepared(image).symbols, naming::key(reloaded.symbols[i])),
    ensures
        coff_symbols::prepared(reloaded).symbols.len() == reloaded.symbols.len(),
        forall|i: int|
            0 <= i < reloaded.symbols.len() ==> (#[trigger] coff_symbols::prepared(
                reloaded,
            ).symbols[i]).name == reloaded.symbols[i].name,
{
    let after = coff_symbols::prepared(image).symbols;
    let syms = reloaded.symbols;
    law_prepared_is_unambiguous(image);
    assert forall|i: int| 0 <= i < syms.len() implies !#[trigger] naming::displaced(syms, i) by {
        if naming::displaced(syms, i) {
            let j = choose|j: int|
                0 <= j < syms.len() && naming::is_definition(#[trigger] syms[j]) && syms[j].name
                    == syms[i].name && syms[j].address < syms[i].address;
            assert(defines(after, naming::key(syms[i])));
            assert(defines(after, naming::key(syms[j])));
        }
    }
}

/// The layout key of a qualified spelling is the spelling before: an address behind it is
/// dropped, and so is a counter behind the address.
pub proof fn law_layout_name_drops_qualification(name: Seq<char>, address: u32, n: nat)
    requires
        n <= u32::MAX,
        n > 0 ==> text::decimal(n) != text::hex8(address),
    ensures
        coff_symbols::layout_name(
            naming::candidate(name + naming::qualifier(address), n),
            address,
        ) == name,
{
    let q = naming::qualifier(address);
    let stem = name + q;
    let c = naming::candidate(stem, n);
    text::lemma_hex_digits_len(address as nat, 8);
    text::lemma_hex_digit_chars(address as nat, 8);
    if n == 0 {
        assert(c.skip(c.len() - q.len()) =~= q);
        assert(c.take(c.len() - q.len()) =~= name);
    } else {
        let digits = text::decimal(n);
        naming::lemma_decimal_value(n);
        text::lemma_last_position(stem, '_', digits);
        assert(!text::has_suffix(c, q)) by {
            if text::has_suffix(c, q) {
                let rest = c.skip(c.len() - q.len());
                assert(rest[0] == '_');
                if digits.len() < 8 {
                    assert(rest[8 - digits.len()] == '_');
                    assert(q[8 - digits.len()] == text::hex8(address)[7 - digits.len()]);
                } else if digits.len() > 8 {
                    assert(rest[0] == digits[digits.len() - 9]);
                } else {
                    assert(rest.skip(1) =~= digits);
                    assert(q.skip(1) =~= text::hex8(address));
                }
            }
        }
        assert(c.skip(stem.len() as int + 1) =~= digits);
        assert(c.take(stem.len() as int) =~= stem);
        assert(digits[0] != '+');
        assert(stem.skip(stem.len() - q.len()) =~= q);
        assert(c.take(stem.len() - q.len()) =~= name);
    }
}

/// The layout key of a prepared definition at its address is the spelling that it had, whatever
/// the counter `n` that its new spelling has. Left out are counters that do not fit 32 bits, and
/// one that spells the address.
pub proof fn law_layout_name_survives_preparation(image: ObjModel, i: int, n: nat)
    requires
        0 <= i < image.symbols.len(),
        naming::displaced(image.symbols, i),
        coff_symbols::prepared(image).symbols[i].name == naming::candidate(
            image.symbols[i].name + naming::qualifier(image.symbols[i].address),
            n,
        ),
        n <= u32::MAX,
        n > 0 ==> text::decimal(n) != text::hex8(image.symbols[i].address),
    ensures
        coff_symbols::layout_name(
            coff_symbols::prepared(image).symbols[i].name,
            image.symbols[i].address,
        ) == image.symbols[i].name,
{
    law_layout_name_drops_qualification(image.symbols[i].name, image.symbols[i].address, n);
}

/// Two definitions with one key are displaced alike, where the same keys are defined.
proof fn lemma_displaced_alike(a: Seq<SymbolModel>, b: Seq<SymbolModel>, i: int, j: int)
    requires
        forall|k: DefinitionKey| #[trigger] defines(a, k) <==> defines(b, k),
        0 <= i < a.len(),
        0 <= j < b.len(),
        naming::is_definition(b[j]),
        naming::key(a[i]) == naming::key(b[j]),
    ensures
        naming::displaced(a, i) ==> naming::displaced(b, j),
{
    if naming::displaced(a, i) {
        let m = choose|m: int|
            0 <= m < a.len() && naming::is_definition(#[trigger] a[m]) && a[m].name == a[i].name
                && a[m].address < a[i].address;
        assert(defines(a, naming::key(a[m])));
        assert(defines(b, naming::key(a[m])));
    }
}

/// A key that is displaced in `a` is displaced in `b`, where the same keys are defined.
proof fn lemma_displaced_key(a: Seq<SymbolModel>, b: Seq<SymbolModel>, i: int) -> (j: int)
    requires
        forall|k: DefinitionKey| #[trigger] defines(a, k) <==> defines(b, k),
        0 <= i < a.len(),
        naming::displaced(a, i),
    ensures
        0 <= j < b.len(),
        naming::displaced(b, j),
        naming::key(b[j]) == naming::key(a[i]),
{
    let k = naming::key(a[i]);
    assert(defines(a, k));
    assert(defines(b, k));
    let j = choose|j: int|
        0 <= j < b.len() && naming::is_definition(#[trigger] b[j]) && naming::key(b[j]) == k;
    lemma_displaced_alike(a, b, i, j);
    j
}

/// Neither the order of symbols nor how often one stands in the image decides on spellings: where
/// the same keys are defined and the same spellings in use, a key gets the same spelling.
pub proof fn law_order_does_not_matter(a: ObjModel, b: ObjModel, i: int, j: int)
    requires
        forall|k: DefinitionKey| #[trigger] defines(a.symbols, k) <==> defines(b.symbols, k),
        naming::spellings(a.symbols) == naming::spellings(b.symbols),
        0 <= i < a.symbols.len(),
        0 <= j < b.symbols.len(),
        naming::is_definition(a.symbols[i]),
        naming::is_definition(b.symbols[j]),
        naming::key(a.symbols[i]) == naming::key(b.symbols[j]),
    ensures
        coff_symbols::prepared(a).symbols[i].name == coff_symbols::prepared(b).symbols[j].name,
{
    let x = a.symbols;
    let y = b.symbols;
    lemma_displaced_alike(x, y, i, j);
    lemma_displaced_alike(y, x, j, i);
    let keys = naming::rename_order(x);
    naming::lemma_rename_order(x);
    naming::lemma_rename_order(y);
    assert(naming::is_rename_order(y, keys)) by {
        assert forall|k: DefinitionKey| #[trigger]
            keys.contains(k) <==> exists|m: int|
                0 <= m < y.len() && #[trigger] naming::displaced(y, m) && naming::key(y[m]) == k by {
            if keys.contains(k) {
                let m = choose|m: int|
                    0 <= m < x.len() && #[trigger] naming::displaced(x, m) && naming::key(x[m]) == k;
                let n = lemma_displaced_key(x, y, m);
                assert(naming::displaced(y, n));
            }
            if exists|m: int|
                0 <= m < y.len() && #[trigger] naming::displaced(y, m) && naming::key(y[m]) == k {
                let m = choose|m: int|
                    0 <= m < y.len() && #[trigger] naming::displaced(y, m) && naming::key(y[m]) == k;
                let n = lemma_displaced_key(y, x, m);
                assert(naming::displaced(x, n));
            }
        }
    }
    naming::lemma_rename_order_unique(y, keys, naming::rename_order(y));
}

/// There is nothing to warn of in an image that was prepared.
pub proof fn law_prepared_has_no_duplicates(image: ObjModel, report: Seq<DuplicateModel>)
    requires
        duplicates::is_duplicate_report(coff_symbols::prepared(image).symbols, report),
    ensures
        report.len() == 0,
{
    law_prepared_is_unambiguous(image);
    if report.len() > 0 {
        let syms = coff_symbols::prepared(image).symbols;
        let entry = report[0];
        let a = entry.addresses[0];
        let b = entry.addresses[1];
        assert(a < b);
        assert(entry.addresses.contains(a) && entry.addresses.contains(b));
        assert(duplicates::defined_at(syms, entry.name, a));
        assert(duplicates::defined_at(syms, entry.name, b));
    }
}

/// A name is reported exactly where one of its definitions gets a new spelling.
pub proof fn law_reports_tell_new_spellings(
    image: ObjModel,
    report: Seq<DuplicateModel>,
    name: Seq<char>,
)
    requires
        duplicates::is_duplicate_report(image.symbols, report),
    ensures
        duplicates::reports(report, name) <==> exists|i: int|
            0 <= i < image.symbols.len() && (#[trigger] image.symbols[i]).name == name
                && coff_symbols::prepared(image).symbols[i].name != name,
{
    let syms = image.symbols;
    if duplicates::reports(report, name) {
        let e = choose|e: int| 0 <= e < report.len() && (#[trigger] report[e]).name == name;
        let a = report[e].addresses[0];
        let b = report[e].addresses[1];
        assert(a < b);
        assert(report[e].addresses.contains(a) && report[e].addresses.contains(b));
        assert(duplicates::defined_at(syms, name, a));
        assert(duplicates::defined_at(syms, name, b));
        let i = choose|i: int|
            0 <= i < syms.len() && naming::is_definition(#[trigger] syms[i]) && syms[i].name == name
                && syms[i].address == b;
        assert(naming::displaced(syms, i));
        lemma_fresh(syms, i);
        assert(syms[i].name == name);
    }
    if exists|i: int|
        0 <= i < syms.len() && (#[trigger] syms[i]).name == name && coff_symbols::prepared(
            image,
        ).symbols[i].name != name {
        let i = choose|i: int|
            0 <= i < syms.len() && (#[trigger] syms[i]).name == name && coff_symbols::prepared(
                image,
            ).symbols[i].name != name;
        let j = choose|j: int|
            0 <= j < syms.len() && naming::is_definition(#[trigger] syms[j]) && syms[j].name
                == syms[i].name && syms[j].address < syms[i].address;
        assert(duplicates::defined_at(syms, name, syms[i].address));
        assert(duplicates::defined_at(syms, name, syms[j].address));
    }
}

} // verus!

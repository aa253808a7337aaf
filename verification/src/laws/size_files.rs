//! What adding sizes does to an object file, told from its bytes.
use crate::coff_table;
use crate::error::ErrorModel;
use crate::function_sizes;
use crate::function_sizes::FileSymbol;
use crate::laws::sizes;
use crate::obj::{ObjSymbolKind, SymbolModel};
use vstd::prelude::*;

verus! {

pub open spec fn u16_at(d: Seq<u8>, o: int) -> int {
    d[o] + 256 * d[o + 1]
}

pub open spec fn u32_at(d: Seq<u8>, o: int) -> int {
    d[o] + 256 * d[o + 1] + 65536 * d[o + 2] + 16777216 * d[o + 3]
}

/// The indices from `from` on at which symbols stand: each says in its last byte how many records
/// belong to it.
pub open spec fn symbols(d: Seq<u8>, from: int) -> Seq<int>
    decreases
            (if from < u32_at(d, 12) {
                u32_at(d, 12) - from
            } else {
                0
            }),
{
    if from >= u32_at(d, 12) {
        Seq::empty()
    } else {
        seq![from] + symbols(d, from + 1 + d[u32_at(d, 8) + 18 * from + 17] as nat)
    }
}

/// Whether a symbol is a function with a place and a size, and some external that is no function
/// stands within it.
pub open spec fn encloses(syms: Seq<SymbolModel>, f: int) -> bool {
    &&& 0 <= f < syms.len()
    &&& syms[f].kind == ObjSymbolKind::Function
    &&& syms[f].section is Some
    &&& syms[f].size != 0
    &&& exists|j: int| #[trigger] stands_within(syms, f, j)
}

/// Whether symbol `j` is an external that is no function, within symbol `f`.
pub open spec fn stands_within(syms: Seq<SymbolModel>, f: int, j: int) -> bool {
    &&& 0 <= j < syms.len()
    &&& syms[j].section == syms[f].section
    &&& syms[f].address <= syms[j].address
    &&& syms[j].address < syms[f].address + syms[f].size
    &&& syms[j].kind != ObjSymbolKind::Function
    &&& syms[j].flags.0 & 0x8000_0000 != 0
}

/// Whether the name of file symbol `k` is that of function `f`, which encloses a label.
pub open spec fn names_function(
    syms: Seq<SymbolModel>,
    names: Seq<FileSymbol>,
    k: int,
    f: int,
) -> bool {
    &&& 0 <= k < names.len()
    &&& encloses(syms, f)
    &&& names[k].1 == Some(syms[f].name)
}

/// Whether record `i` is to get a size.
pub open spec fn is_sized(syms: Seq<SymbolModel>, names: Seq<FileSymbol>, i: int) -> bool {
    exists|k: int, f: int| #[trigger] names_function(syms, names, k, f) && names[k].0 == i
}

/// Whether `size` is the size that record `i` is to get: that of the last function by the name of
/// the last file symbol at `i` that names one.
pub open spec fn is_size(
    syms: Seq<SymbolModel>,
    names: Seq<FileSymbol>,
    i: int,
    size: u32,
) -> bool {
    exists|k: int, f: int|
        {
            &&& #[trigger] names_function(syms, names, k, f)
            &&& names[k].0 == i
            &&& syms[f].size == size
            &&& forall|g: int| f < g ==> !#[trigger] names_function(syms, names, k, g)
            &&& forall|m: int, g: int|
                k < m && names[m].0 == i ==> !#[trigger] names_function(syms, names, m, g)
        }
}

/// How many of the records at `list` are to get a size.
pub open spec fn sized_among(
    syms: Seq<SymbolModel>,
    names: Seq<FileSymbol>,
    list: Seq<int>,
) -> nat
    decreases list.len(),
{
    if list.len() == 0 {
        0
    } else if is_sized(syms, names, list.last()) {
        sized_among(syms, names, list.drop_last()) + 1
    } else {
        sized_among(syms, names, list.drop_last())
    }
}

/// Whether relocation `k` of section `s` names its symbol at `o`. A count of 65535 with the flag
/// for it stands in the first relocation, which then names none.
pub open spec fn names_symbol_at(d: Seq<u8>, s: int, k: int, o: int) -> bool {
    let header = 20 + u16_at(d, 16) + 40 * s;
    let at = u32_at(d, header + 24);
    let many = u16_at(d, header + 32) == 65535 && u32_at(d, header + 36) / 0x100_0000 % 2 == 1;
    &&& 0 <= s < u16_at(d, 2)
    &&& (if many {
        1int
    } else {
        0
    }) <= k < (if many {
        u32_at(d, at)
    } else {
        u16_at(d, header + 32)
    })
    &&& o == at + 10 * k + 4
}

/// Whether the places where relocations name symbols overlap neither each other nor the header of
/// the file.
pub open spec fn places_apart(d: Seq<u8>) -> bool {
    &&& forall|s: int, k: int, o: int| #[trigger] names_symbol_at(d, s, k, o) ==> o >= 20
    &&& forall|s: int, k: int, o: int, t: int, m: int, q: int|
        #![trigger names_symbol_at(d, s, k, o), names_symbol_at(d, t, m, q)]
        names_symbol_at(d, s, k, o) && names_symbol_at(d, t, m, q) && (s != t || k != m) ==> o + 4
            <= q || q + 4 <= o
}

proof fn lemma_symbols(d: Seq<u8>, from: int)
    ensures
        coff_table::record_starts(d, from) == symbols(d, from),
    decreases
            (if from < u32_at(d, 12) {
                u32_at(d, 12) - from
            } else {
                0
            }),
{
    if from < u32_at(d, 12) {
        lemma_symbols(d, from + 1 + d[u32_at(d, 8) + 18 * from + 17] as nat);
    }
}

proof fn lemma_encloses(syms: Seq<SymbolModel>, f: int)
    requires
        0 <= f < syms.len(),
    ensures
        function_sizes::needs_size(syms, f) <==> encloses(syms, f),
{
    if function_sizes::needs_size(syms, f) {
        let j = choose|j: int|
            0 <= j < syms.len() && #[trigger] function_sizes::is_inner_label(syms, f, j);
        assert(stands_within(syms, f, j));
    }
    if encloses(syms, f) {
        let j = choose|j: int| #[trigger] stands_within(syms, f, j);
        assert(function_sizes::is_inner_label(syms, f, j));
    }
}

/// The last function by a name gives the size.
proof fn lemma_last_function(syms: Seq<SymbolModel>, n: int, name: Seq<char>) -> (f: int)
    requires
        0 <= n <= syms.len(),
        function_sizes::function_sizes(syms, n).contains_key(name),
    ensures
        0 <= f < n,
        encloses(syms, f),
        syms[f].name == name,
        function_sizes::function_sizes(syms, n)[name] == syms[f].size,
        forall|g: int| f < g < n && #[trigger] encloses(syms, g) ==> syms[g].name != name,
    decreases n,
{
    lemma_encloses(syms, n - 1);
    if function_sizes::needs_size(syms, n - 1) && syms[n - 1].name == name {
        n - 1
    } else {
        assert(function_sizes::function_sizes(syms, n - 1).contains_key(name));
        let f = lemma_last_function(syms, n - 1, name);
        assert forall|g: int| f < g < n && #[trigger] encloses(syms, g) implies syms[g].name
            != name by {}
        f
    }
}

proof fn lemma_named(syms: Seq<SymbolModel>, f: int)
    requires
        encloses(syms, f),
    ensures
        function_sizes::function_sizes(syms, syms.len() as int).contains_key(syms[f].name),
{
    lemma_encloses(syms, f);
    sizes::lemma_function_sizes(syms, syms.len() as int, syms[f].name);
}

/// The last file symbol at an index that names a function gives the size.
proof fn lemma_last_symbol(
    names: Seq<FileSymbol>,
    known: Map<Seq<char>, u32>,
    n: int,
    index: usize,
) -> (k: int)
    requires
        0 <= n <= names.len(),
        function_sizes::size_additions(names, known, n).contains_key(index),
    ensures
        0 <= k < n,
        names[k].0 == index,
        names[k].1 is Some,
        known.contains_key(names[k].1->0),
        function_sizes::size_additions(names, known, n)[index] == known[names[k].1->0],
        forall|m: int|
            k < m < n && (#[trigger] names[m]).0 == index && names[m].1 is Some
                ==> !known.contains_key(names[m].1->0),
    decreases n,
{
    let s = names[n - 1];
    if s.0 == index && s.1 is Some && known.contains_key(s.1->0) {
        n - 1
    } else {
        assert(function_sizes::size_additions(names, known, n - 1).contains_key(index));
        lemma_last_symbol(names, known, n - 1, index)
    }
}

proof fn lemma_sized(syms: Seq<SymbolModel>, names: Seq<FileSymbol>, i: int)
    ensures
        match function_sizes::added(function_sizes::all_additions(syms, names), i) {
            Some(size) => is_sized(syms, names, i) && is_size(syms, names, i, size),
            None => !is_sized(syms, names, i),
        },
{
    let additions = function_sizes::all_additions(syms, names);
    let known = function_sizes::function_sizes(syms, syms.len() as int);
    let n = names.len() as int;
    match function_sizes::added(additions, i) {
        Some(size) => {
            let k = lemma_last_symbol(names, known, n, i as usize);
            let f = lemma_last_function(syms, syms.len() as int, names[k].1->0);
            assert(names_function(syms, names, k, f));
            assert forall|g: int| f < g implies !#[trigger] names_function(syms, names, k, g) by {}
            assert forall|m: int, g: int|
                k < m && names[m].0 == i implies !#[trigger] names_function(syms, names, m, g) by {
                if names_function(syms, names, m, g) {
                    lemma_named(syms, g);
                }
            }
        },
        None => {
            if is_sized(syms, names, i) {
                let (k, f) = choose|k: int, f: int| #[trigger]
                    names_function(syms, names, k, f) && names[k].0 == i;
                lemma_named(syms, f);
                sizes::lemma_size_additions(names, known, n, i as usize);
            }
        },
    }
}

proof fn lemma_sized_among(syms: Seq<SymbolModel>, names: Seq<FileSymbol>, list: Seq<int>)
    ensures
        sizes::additions_among(function_sizes::all_additions(syms, names), list) == sized_among(
            syms,
            names,
            list,
        ),
    decreases list.len(),
{
    if list.len() > 0 {
        lemma_sized_among(syms, names, list.drop_last());
        lemma_sized(syms, names, list.last());
    }
}

/// No record gets a size where there is none to add.
proof fn lemma_none_sized(syms: Seq<SymbolModel>, names: Seq<FileSymbol>, list: Seq<int>)
    requires
        function_sizes::all_additions(syms, names).is_empty(),
    ensures
        sized_among(syms, names, list) == 0,
        forall|i: int| !#[trigger] is_sized(syms, names, i),
    decreases list.len(),
{
    assert forall|i: int| !#[trigger] is_sized(syms, names, i) by {
        lemma_sized(syms, names, i);
    }
    if list.len() > 0 {
        lemma_none_sized(syms, names, list.drop_last());
    }
}

/// Which relocation an entry of the list of places belongs to.
proof fn lemma_place_of(d: Seq<u8>, n: int, p: int) -> (r: (int, int))
    requires
        0 <= n <= u16_at(d, 2),
        0 <= p < coff_table::relocation_sites(d, n).len(),
    ensures
        0 <= r.0 < n,
        names_symbol_at(d, r.0, r.1, coff_table::relocation_sites(d, n)[p]),
        coff_table::relocation_sites(d, r.0).len() <= p,
        r.1 == coff_table::first_relocation(d, coff_table::section_header(d, r.0)) + p
            - coff_table::relocation_sites(d, r.0).len(),
    decreases n,
{
    let before = coff_table::relocation_sites(d, n - 1);
    let here = coff_table::section_sites(d, n - 1);
    if p < before.len() {
        lemma_place_of(d, n - 1, p)
    } else {
        assert(coff_table::relocation_sites(d, n)[p] == here[p - before.len()]);
        let h = coff_table::section_header(d, n - 1);
        let k = coff_table::first_relocation(d, h) + p - before.len();
        assert(names_symbol_at(d, n - 1, k, coff_table::relocation_sites(d, n)[p]));
        (n - 1, k)
    }
}

/// Where the place of a relocation stands in the list.
proof fn lemma_place_in(d: Seq<u8>, n: int, s: int, k: int, o: int) -> (p: int)
    requires
        0 <= s < n <= u16_at(d, 2),
        names_symbol_at(d, s, k, o),
    ensures
        0 <= p < coff_table::relocation_sites(d, n).len(),
        coff_table::relocation_sites(d, n)[p] == o,
        p == coff_table::relocation_sites(d, s).len() + k - coff_table::first_relocation(
            d,
            coff_table::section_header(d, s),
        ),
        p < coff_table::relocation_sites(d, s + 1).len() <= coff_table::relocation_sites(d, n).len(),
    decreases n,
{
    let before = coff_table::relocation_sites(d, n - 1);
    let here = coff_table::section_sites(d, n - 1);
    let all = coff_table::relocation_sites(d, n);
    assert(all == before + here);
    if s < n - 1 {
        let p = lemma_place_in(d, n - 1, s, k, o);
        assert(all[p] == before[p]);
        p
    } else {
        let h = coff_table::section_header(d, s);
        let m = k - coff_table::first_relocation(d, h);
        assert(here[m] == o);
        assert(all[before.len() + m] == here[m]);
        before.len() + m
    }
}

proof fn lemma_places_apart(d: Seq<u8>)
    requires
        places_apart(d),
    ensures
        sizes::sites_apart(d),
{
    let all = function_sizes::all_sites(d);
    let n = u16_at(d, 2);
    assert forall|k: int| 0 <= k < all.len() implies #[trigger] all[k]
        >= coff_table::FILE_HEADER_SIZE by {
        let (s, m) = lemma_place_of(d, n, k);
        assert(names_symbol_at(d, s, m, all[k]));
    }
    assert forall|j: int, k: int|
        #![trigger all[j], all[k]]
        0 <= j < all.len() && 0 <= k < all.len() && j != k implies all[j] + 4 <= all[k] || all[k] + 4
        <= all[j] by {
        let (s, m) = lemma_place_of(d, n, j);
        let (t, q) = lemma_place_of(d, n, k);
        assert(names_symbol_at(d, s, m, all[j]));
        assert(names_symbol_at(d, t, q, all[k]));
    }
}

/// Every relocation of every section names, after sizes are added, the symbol that it named before:
/// the index has grown by the sizes that go in before it, and the record there has the name, value,
/// section and type of the record that was named. The table starts where it did.
pub proof fn law_every_relocation_follows_its_symbol(
    d: Seq<u8>,
    syms: Seq<SymbolModel>,
    names: Seq<FileSymbol>,
    s: int,
    k: int,
    o: int,
    p: int,
)
    requires
        function_sizes::sizes_fit(d, syms, names),
        function_sizes::with_sizes(d, syms, names) is Ok,
        places_apart(d),
        names_symbol_at(d, s, k, o),
        0 <= p < symbols(d, 0).len(),
        u32_at(d, o) == symbols(d, 0)[p],
        symbols(d, 0)[p] + sized_among(syms, names, symbols(d, 0).take(p)) <= 0xFFFF_FFFF,
    ensures
        ({
            let out = function_sizes::with_sizes(d, syms, names)->Ok_0;
            let old = u32_at(d, o);
            let new = u32_at(out, o);
            &&& new == old + sized_among(syms, names, symbols(d, 0).take(p))
            &&& u32_at(out, 8) == u32_at(d, 8)
            &&& forall|x: int|
                0 <= x < 16 ==> out[u32_at(out, 8) + 18 * new + x] == #[trigger] d[u32_at(d, 8) + 18
                    * old + x]
        }),
{
    let additions = function_sizes::all_additions(syms, names);
    let starts = symbols(d, 0);
    lemma_symbols(d, 0);
    if additions.is_empty() {
        lemma_none_sized(syms, names, starts.take(p));
    } else {
        lemma_places_apart(d);
        lemma_sized_among(syms, names, starts.take(p));
        let q = lemma_place_in(d, u16_at(d, 2), s, k, o);
        sizes::law_relocations_keep_their_symbols(d, additions, q);
        sizes::law_symbols_move_by_insertions(d, additions, p);
        sizes::law_relocations_name_same_records(d, additions, q, p);
        sizes::lemma_new_record_in_file(d, additions, p);
        sizes::lemma_records(d, additions, 0);
        assert(sizes::record_stands(d, additions, starts[p]));
        let out = function_sizes::with_sizes(d, syms, names)->Ok_0;
        let old = u32_at(d, 8) + 18 * u32_at(d, o);
        let new = u32_at(out, 8) + 18 * u32_at(out, o);
        assert forall|x: int| 0 <= x < 16 implies out[new + x] == #[trigger] d[old + x] by {
            assert(out.subrange(new, new + 16)[x] == d.subrange(old, old + 16)[x]);
        }
    }
}

/// A relocation that named a record which is no symbol names the first record, where sizes are
/// added at all.
pub proof fn law_relocations_to_no_symbol(
    d: Seq<u8>,
    syms: Seq<SymbolModel>,
    names: Seq<FileSymbol>,
    s: int,
    k: int,
    o: int,
)
    requires
        function_sizes::sizes_fit(d, syms, names),
        function_sizes::with_sizes(d, syms, names) is Ok,
        places_apart(d),
        names_symbol_at(d, s, k, o),
        !symbols(d, 0).contains(u32_at(d, o)),
        exists|i: int| 0 <= i <= usize::MAX && #[trigger] is_sized(syms, names, i),
    ensures
        u32_at(function_sizes::with_sizes(d, syms, names)->Ok_0, o) == 0,
{
    let additions = function_sizes::all_additions(syms, names);
    lemma_symbols(d, 0);
    lemma_places_apart(d);
    let i = choose|i: int| 0 <= i <= usize::MAX && #[trigger] is_sized(syms, names, i);
    lemma_sized(syms, names, i);
    assert(additions.contains_key(i as usize));
    let q = lemma_place_in(d, u16_at(d, 2), s, k, o);
    sizes::law_relocations_keep_their_symbols(d, additions, q);
}

/// The record of each symbol stands at its new place with its name, value, section and type. One
/// that is to get a size is an external with one record behind it, which holds the size in its
/// second word and is zero otherwise. All other symbols keep class and records behind them.
pub proof fn law_every_symbol_stays(
    d: Seq<u8>,
    syms: Seq<SymbolModel>,
    names: Seq<FileSymbol>,
    p: int,
)
    requires
        function_sizes::sizes_fit(d, syms, names),
        function_sizes::with_sizes(d, syms, names) is Ok,
        0 <= p < symbols(d, 0).len(),
        symbols(d, 0)[p] + sized_among(syms, names, symbols(d, 0).take(p)) <= 0xFFFF_FFFF,
    ensures
        ({
            let out = function_sizes::with_sizes(d, syms, names)->Ok_0;
            let i = symbols(d, 0)[p];
            let old = u32_at(d, 8) + 18 * i;
            let new = u32_at(d, 8) + 18 * (i + sized_among(syms, names, symbols(d, 0).take(p)));
            &&& forall|x: int| 0 <= x < 16 ==> out[new + x] == #[trigger] d[old + x]
            &&& !is_sized(syms, names, i) ==> forall|x: int|
                0 <= x < 18 * (1 + d[old + 17]) ==> out[new + x] == #[trigger] d[old + x]
            &&& is_sized(syms, names, i) ==> {
                &&& out[new + 16] == 2
                &&& out[new + 17] == 1
                &&& 0 <= u32_at(out, new + 22) <= u32::MAX
                &&& is_size(syms, names, i, u32_at(out, new + 22) as u32)
                &&& forall|x: int|
                    18 <= x < 36 && !(22 <= x < 26) ==> #[trigger] out[new + x] == 0
            }
        }),
{
    let additions = function_sizes::all_additions(syms, names);
    let starts = symbols(d, 0);
    let i = starts[p];
    lemma_symbols(d, 0);
    lemma_sized(syms, names, i);
    if additions.is_empty() {
        lemma_none_sized(syms, names, starts.take(p));
    } else {
        lemma_sized_among(syms, names, starts.take(p));
        sizes::law_symbols_move_by_insertions(d, additions, p);
        sizes::law_records_stay(d, additions, p);
        sizes::lemma_new_record_in_file(d, additions, p);
        sizes::lemma_records(d, additions, 0);
        assert(sizes::record_stands(d, additions, i));
        let out = function_sizes::with_sizes(d, syms, names)->Ok_0;
        let old = u32_at(d, 8) + 18 * i;
        let new = u32_at(d, 8) + 18 * (i + sized_among(syms, names, starts.take(p)));
        match function_sizes::added(additions, i) {
            None => {
                let n = 18 * (1 + d[old + 17] as nat);
                assert forall|x: int| 0 <= x < n implies out[new + x] == #[trigger] d[old + x] by {
                    assert(out.subrange(new, new + n)[x] == d.subrange(old, old + n)[x]);
                }
            },
            Some(size) => {
                assert forall|x: int| 0 <= x < 16 implies out[new + x] == #[trigger] d[old + x] by {
                    assert(out.subrange(new, new + 16)[x] == d.subrange(old, old + 16)[x]);
                }
                sizes::lemma_new_record(d, additions, p);
                sizes::lemma_sized_record(d, additions, i, size);
                let record = function_sizes::size_record(size);
                assert forall|x: int|
                    18 <= x < 36 && !(22 <= x < 26) implies #[trigger] out[new + x] == 0 by {
                    assert(out.subrange(new + 18, new + 36)[x - 18] == record[x - 18]);
                }
            },
        }
    }
}

/// Before the symbol table only the number of records and the places where relocations name symbols
/// change. What follows the table stays, and the file grows by a record for each size, where the
/// records end with the table.
pub proof fn law_all_else_stays(
    d: Seq<u8>,
    syms: Seq<SymbolModel>,
    names: Seq<FileSymbol>,
    x: int,
)
    requires
        function_sizes::sizes_fit(d, syms, names),
        function_sizes::with_sizes(d, syms, names) is Ok,
    ensures
        ({
            let out = function_sizes::with_sizes(d, syms, names)->Ok_0;
            let end = u32_at(d, 8) + 18 * u32_at(d, 12);
            let list = symbols(d, 0);
            let added = sized_among(syms, names, list);
            let closed = list.len() > 0 ==> list.last() + 1 + d[u32_at(d, 8) + 18 * list.last()
                + 17] == u32_at(d, 12);
            &&& 0 <= x < u32_at(d, 8) && !(12 <= x < 16) && (forall|s: int, k: int, o: int|
                names_symbol_at(d, s, k, o) ==> !(o <= x < o + 4)) ==> out[x] == d[x]
            &&& closed ==> out.len() == d.len() + 18 * added
            &&& closed && end <= x < d.len() ==> out[x + 18 * added] == d[x]
            &&& closed && d.len() >= 16 && u32_at(d, 12) + added <= 0xFFFF_FFFF ==> u32_at(out, 12)
                == u32_at(d, 12) + added
        }),
{
    let additions = function_sizes::all_additions(syms, names);
    let list = symbols(d, 0);
    lemma_symbols(d, 0);
    if additions.is_empty() {
        lemma_none_sized(syms, names, list);
    } else {
        let out = function_sizes::with_sizes(d, syms, names)->Ok_0;
        lemma_sized_among(syms, names, list);
        let r = sizes::lemma_inserted(d, additions);
        let all = function_sizes::all_sites(d);
        let end = u32_at(d, 8) + 18 * u32_at(d, 12);
        if 0 <= x < u32_at(d, 8) && !(12 <= x < 16) && (forall|s: int, k: int, o: int|
            names_symbol_at(d, s, k, o) ==> !(o <= x < o + 4)) {
            assert(!sizes::in_sites(all, x)) by {
                if sizes::in_sites(all, x) {
                    let q = choose|q: int|
                        0 <= q < all.len() && (#[trigger] all[q]) <= x < all[q] + 4;
                    let (s, k) = lemma_place_of(d, u16_at(d, 2), q);
                    assert(names_symbol_at(d, s, k, all[q]));
                }
            }
            sizes::law_bytes_before_table_stay(d, additions, x);
        }
        if list.len() > 0 ==> list.last() + 1 + d[u32_at(d, 8) + 18 * list.last() + 17] == u32_at(
            d,
            12,
        ) {
            sizes::law_file_grows_by_size_records(d, additions);
            sizes::law_rest_of_file_stays(d, additions);
            let table = function_sizes::new_table(d, additions);
            if end <= x < d.len() {
                assert(out.skip(u32_at(d, 8) + table.len())[x - end] == d.skip(end)[x - end]);
            }
        }
    }
}

/// Adding sizes fails where a symbol that is to get one has records behind it already, and otherwise
/// where a relocation names an index that the table does not have: the failure tells the first.
/// There is no other failure.
pub proof fn law_when_adding_fails(d: Seq<u8>, syms: Seq<SymbolModel>, names: Seq<FileSymbol>)
    requires
        function_sizes::sizes_fit(d, syms, names),
    ensures
        ({
            let r = function_sizes::with_sizes(d, syms, names);
            let some = exists|i: int| 0 <= i <= usize::MAX && #[trigger] is_sized(syms, names, i);
            let has_record = exists|p: int|
                0 <= p < symbols(d, 0).len() && is_sized(syms, names, #[trigger] symbols(d, 0)[p])
                    && d[u32_at(d, 8) + 18 * symbols(d, 0)[p] + 17] != 0;
            let bad_place = exists|s: int, k: int, o: int| #[trigger]
                names_symbol_at(d, s, k, o) && u32_at(d, o) >= u32_at(d, 12);
            &&& r == Err::<Seq<u8>, ErrorModel>(ErrorModel::UnexpectedAuxRecord) <==> has_record
            &&& r is Ok <==> !some || (!has_record && !bad_place)
            &&& r is Err && !has_record ==> exists|s: int, k: int, o: int|
                {
                    &&& #[trigger] names_symbol_at(d, s, k, o)
                    &&& u32_at(d, o) >= u32_at(d, 12)
                    &&& r == Err::<Seq<u8>, ErrorModel>(
                        ErrorModel::InvalidRelocationSymbol(u32_at(d, o)),
                    )
                    &&& forall|t: int, m: int, q: int|
                        (t < s || (t == s && m < k)) && #[trigger] names_symbol_at(d, t, m, q)
                            ==> u32_at(d, q) < u32_at(d, 12)
                }
        }),
{
    let additions = function_sizes::all_additions(syms, names);
    let starts = symbols(d, 0);
    let n = u16_at(d, 2);
    lemma_symbols(d, 0);
    if additions.is_empty() {
        lemma_none_sized(syms, names, starts);
    } else {
        let index = choose|index: usize| additions.contains_key(index);
        assert(additions.contains_key(index)) by {
            if forall|index: usize| !additions.contains_key(index) {
                assert(additions =~= Map::empty());
            }
        }
        lemma_sized(syms, names, index as int);
        assert(is_sized(syms, names, index as int));
        assert forall|i: int| (function_sizes::added(additions, i) is Some) == #[trigger] is_sized(
            syms,
            names,
            i,
        ) by {
            lemma_sized(syms, names, i);
        }
        if function_sizes::conflicts(d, additions, starts) {
            let p = choose|p: int|
                0 <= p < starts.len() && function_sizes::added(additions, #[trigger] starts[p]) is Some
                    && coff_table::aux_count(d, starts[p]) != 0;
            assert(is_sized(syms, names, starts[p]));
        }
        if exists|p: int|
            0 <= p < starts.len() && is_sized(syms, names, #[trigger] starts[p]) && d[u32_at(d, 8)
                + 18 * starts[p] + 17] != 0 {
            let p = choose|p: int|
                0 <= p < starts.len() && is_sized(syms, names, #[trigger] starts[p]) && d[u32_at(
                    d,
                    8,
                ) + 18 * starts[p] + 17] != 0;
            assert(function_sizes::added(additions, starts[p]) is Some);
            assert(function_sizes::conflicts(d, additions, starts));
        }
        let all = function_sizes::all_sites(d);
        lemma_first_invalid(d, all);
        if let Some(old) = function_sizes::first_invalid(d, all) {
            let q = choose|q: int| #[trigger] is_first_invalid(d, all, q, old);
            let (s, k) = lemma_place_of(d, n, q);
            assert(names_symbol_at(d, s, k, all[q]));
            assert forall|t: int, m: int, x: int|
                (t < s || (t == s && m < k)) && #[trigger] names_symbol_at(d, t, m, x) implies u32_at(
                d,
                x,
            ) < u32_at(d, 12) by {
                let y = lemma_place_in(d, n, t, m, x);
                if t < s {
                    lemma_lists_grow(d, t + 1, s);
                }
                assert(coff_table::le32(d, all[y]) < coff_table::table_count(d));
            }
        }
        if exists|s: int, k: int, o: int| #[trigger]
            names_symbol_at(d, s, k, o) && u32_at(d, o) >= u32_at(d, 12) {
            let (s, k, o) = choose|s: int, k: int, o: int| #[trigger]
                names_symbol_at(d, s, k, o) && u32_at(d, o) >= u32_at(d, 12);
            let q = lemma_place_in(d, n, s, k, o);
            assert(coff_table::le32(d, all[q]) >= coff_table::table_count(d));
        }
    }
}

/// Whether entry `q` of the list is the first that names `old`, which the table does not have.
spec fn is_first_invalid(d: Seq<u8>, all: Seq<int>, q: int, old: int) -> bool {
    &&& 0 <= q < all.len()
    &&& coff_table::le32(d, all[q]) == old
    &&& old >= coff_table::table_count(d)
    &&& forall|y: int|
        0 <= y < q ==> #[trigger] coff_table::le32(d, all[y]) < coff_table::table_count(d)
}

proof fn lemma_lists_grow(d: Seq<u8>, m: int, n: int)
    requires
        0 <= m <= n,
    ensures
        coff_table::relocation_sites(d, m).len() <= coff_table::relocation_sites(d, n).len(),
    decreases n - m,
{
    if m < n {
        lemma_lists_grow(d, m, n - 1);
    }
}

proof fn lemma_first_invalid(d: Seq<u8>, all: Seq<int>)
    ensures
        match function_sizes::first_invalid(d, all) {
            Some(old) => exists|q: int| #[trigger] is_first_invalid(d, all, q, old),
            None => forall|q: int|
                0 <= q < all.len() ==> #[trigger] coff_table::le32(d, all[q])
                    < coff_table::table_count(d),
        },
    decreases all.len(),
{
    if all.len() > 0 {
        let rest = all.drop_last();
        let last = all.len() - 1;
        lemma_first_invalid(d, rest);
        match function_sizes::first_invalid(d, rest) {
            Some(old) => {
                let q = choose|q: int| #[trigger] is_first_invalid(d, rest, q, old);
                assert forall|y: int| 0 <= y < q implies #[trigger] coff_table::le32(d, all[y])
                    < coff_table::table_count(d) by {
                    assert(coff_table::le32(d, rest[y]) < coff_table::table_count(d));
                }
                assert(is_first_invalid(d, all, q, old));
            },
            None => {
                assert forall|y: int| 0 <= y < last implies #[trigger] coff_table::le32(d, all[y])
                    < coff_table::table_count(d) by {
                    assert(coff_table::le32(d, rest[y]) < coff_table::table_count(d));
                }
                if let Some(old) = function_sizes::first_invalid(d, all) {
                    assert(is_first_invalid(d, all, last, old));
                } else {
                    assert(all[last] == all.last());
                }
            },
        }
    }
}

/// Whether the count of section `s` stands in its first relocation.
pub open spec fn counts_in_relocation(d: Seq<u8>, s: int) -> bool {
    let header = 20 + u16_at(d, 16) + 40 * s;
    u16_at(d, header + 32) == 65535 && u32_at(d, header + 36) / 0x100_0000 % 2 == 1
}

/// Whether the header of section `s` stands in the file, up to the count of its relocations, and up
/// to its flags where that count is the largest.
pub open spec fn has_header(d: Seq<u8>, s: int) -> bool {
    let header = 20 + u16_at(d, 16) + 40 * s;
    &&& header + 34 <= d.len()
    &&& u16_at(d, header + 32) == 65535 ==> header + 40 <= d.len()
}

proof fn lemma_records_stand(d: Seq<u8>, additions: Map<usize, u32>, from: int)
    requires
        0 <= from,
        u32_at(d, 8) + 18 * u32_at(d, 12) <= d.len(),
        forall|p: int|
            0 <= p < symbols(d, from).len() ==> (#[trigger] symbols(d, from)[p]) + 1 + d[u32_at(d, 8)
                + 18 * symbols(d, from)[p] + 17] <= u32_at(d, 12),
    ensures
        function_sizes::records_in_file(d, additions, from),
    decreases
            (if from < u32_at(d, 12) {
                u32_at(d, 12) - from
            } else {
                0
            }),
{
    if from < u32_at(d, 12) {
        let next = from + 1 + d[u32_at(d, 8) + 18 * from + 17] as nat;
        let list = symbols(d, from);
        let rest = symbols(d, next);
        assert(list == seq![from] + rest);
        assert(list[0] == from);
        assert forall|p: int| 0 <= p < rest.len() implies (#[trigger] rest[p]) + 1 + d[u32_at(d, 8)
            + 18 * rest[p] + 17] <= u32_at(d, 12) by {
            assert(list[p + 1] == rest[p]);
        }
        lemma_records_stand(d, additions, next);
    }
}

proof fn lemma_sites_stand(d: Seq<u8>, list: Seq<int>)
    requires
        u32_at(d, 8) <= d.len(),
        forall|p: int| 0 <= p < list.len() ==> (#[trigger] list[p]) + 4 <= u32_at(d, 8),
    ensures
        function_sizes::sites_in_file(d, list),
    decreases list.len(),
{
    if list.len() > 0 {
        let rest = list.drop_last();
        assert forall|p: int| 0 <= p < rest.len() implies (#[trigger] rest[p]) + 4 <= u32_at(d, 8) by {
            assert(rest[p] == list[p]);
        }
        lemma_sites_stand(d, rest);
        assert(list[list.len() - 1] == list.last());
    }
}

proof fn lemma_sections_stand(d: Seq<u8>, n: int)
    requires
        0 <= n <= u16_at(d, 2),
        u32_at(d, 8) <= d.len(),
        forall|s: int|
            0 <= s < u16_at(d, 2) ==> #[trigger] has_header(d, s),
        forall|s: int|
            0 <= s < u16_at(d, 2) && #[trigger] counts_in_relocation(d, s) ==> u32_at(
                d,
                20 + u16_at(d, 16) + 40 * s + 24,
            ) + 4 <= d.len(),
        forall|s: int, k: int, o: int| #[trigger]
            names_symbol_at(d, s, k, o) ==> o + 4 <= u32_at(d, 8),
    ensures
        function_sizes::sections_in_file(d, n),
    decreases n,
{
    if n > 0 {
        lemma_sections_stand(d, n - 1);
        let here = coff_table::section_sites(d, n - 1);
        let h = coff_table::section_header(d, n - 1);
        assert(has_header(d, n - 1));
        assert(counts_in_relocation(d, n - 1) == coff_table::count_overflows(d, h));
        assert forall|p: int| 0 <= p < here.len() implies (#[trigger] here[p]) + 4 <= u32_at(d, 8) by {
            let k = coff_table::first_relocation(d, h) + p;
            assert(names_symbol_at(d, n - 1, k, here[p]));
        }
        lemma_sites_stand(d, here);
    }
}

/// Sizes can be added to every whole file: one in which the records stand in the table and the
/// table, the section headers and the relocations in the file, the relocations before the table.
pub proof fn law_whole_files_take_sizes(
    d: Seq<u8>,
    syms: Seq<SymbolModel>,
    names: Seq<FileSymbol>,
)
    requires
        d.len() >= 18,
        u32_at(d, 8) >= 16,
        u32_at(d, 8) + 18 * u32_at(d, 12) <= d.len(),
        forall|p: int|
            0 <= p < symbols(d, 0).len() ==> (#[trigger] symbols(d, 0)[p]) + 1 + d[u32_at(d, 8) + 18
                * symbols(d, 0)[p] + 17] <= u32_at(d, 12),
        forall|s: int|
            0 <= s < u16_at(d, 2) ==> #[trigger] has_header(d, s),
        forall|s: int|
            0 <= s < u16_at(d, 2) && #[trigger] counts_in_relocation(d, s) ==> u32_at(
                d,
                20 + u16_at(d, 16) + 40 * s + 24,
            ) + 4 <= d.len(),
        forall|s: int, k: int, o: int| #[trigger]
            names_symbol_at(d, s, k, o) ==> o + 4 <= u32_at(d, 8),
        forall|f: int|
            0 <= f < syms.len() && (#[trigger] syms[f]).kind == ObjSymbolKind::Function
                ==> syms[f].address + syms[f].size <= 0xFFFF_FFFF,
    ensures
        function_sizes::sizes_fit(d, syms, names),
{
    lemma_records_stand(d, function_sizes::all_additions(syms, names), 0);
    lemma_sections_stand(d, u16_at(d, 2));
}

} // verus!

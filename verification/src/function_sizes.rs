//! Size records for functions that hold external labels.
//!
//! COFF externals with null type read as data, even in .text. The enclosing functions get their
//! standard auxiliary size records, so that they are not truncated at a promoted label. Only the
//! symbol table and relocation symbol indices change; sections do not.
use crate::coff_table;
use crate::error::{ErrorModel, RelinkError};
use crate::obj;
use crate::obj::{ObjInfo, ObjSymbol, ObjSymbolFlags, ObjSymbolKind, SymbolModel};
use object::read::{Object, ObjectSymbol};
use std::collections::HashMap;
use vstd::hash_map::StringHashMap;
use vstd::prelude::*;
use vstd::slice::{slice_subrange, slice_to_vec};

verus! {

/// Whether symbol `j` is an external label within function `i`: an external that is no function,
/// in the section of the function and between its start and its end.
pub open spec fn is_inner_label(syms: Seq<SymbolModel>, i: int, j: int) -> bool {
    &&& syms[j].section == syms[i].section
    &&& syms[i].address <= syms[j].address < syms[i].address + syms[i].size
    &&& syms[j].kind != ObjSymbolKind::Function
    &&& syms[j].flags.has(ObjSymbolFlags::CoffExternal)
}

/// Whether a symbol is a function with a place and a size.
pub open spec fn is_sized_function(s: SymbolModel) -> bool {
    s.kind == ObjSymbolKind::Function && s.section is Some && s.size != 0
}

/// Whether function `i` needs a size record.
pub open spec fn needs_size(syms: Seq<SymbolModel>, i: int) -> bool {
    &&& is_sized_function(syms[i])
    &&& exists|j: int| 0 <= j < syms.len() && #[trigger] is_inner_label(syms, i, j)
}

/// The sizes of the functions that need a record, by name, of the first `n` symbols. Of functions
/// that share a name the last counts.
pub open spec fn function_sizes(syms: Seq<SymbolModel>, n: int) -> Map<Seq<char>, u32>
    decreases n,
{
    if n <= 0 {
        Map::empty()
    } else if needs_size(syms, n - 1) {
        function_sizes(syms, n - 1).insert(syms[n - 1].name, syms[n - 1].size)
    } else {
        function_sizes(syms, n - 1)
    }
}

/// A symbol of an object file: its index in the symbol table, and its name if it has one.
pub type FileSymbol = (usize, Option<Seq<char>>);

/// The sizes to add, by symbol table index, for the first `n` symbols of a file.
pub open spec fn size_additions(names: Seq<FileSymbol>, sizes: Map<Seq<char>, u32>, n: int) -> Map<
    usize,
    u32,
>
    decreases n,
{
    if n <= 0 {
        Map::empty()
    } else {
        let earlier = size_additions(names, sizes, n - 1);
        match names[n - 1].1 {
            Some(name) => if sizes.contains_key(name) {
                earlier.insert(names[n - 1].0, sizes[name])
            } else {
                earlier
            },
            None => earlier,
        }
    }
}

/// The sizes to add to a file with the symbols `names`.
pub open spec fn all_additions(syms: Seq<SymbolModel>, names: Seq<FileSymbol>) -> Map<usize, u32> {
    size_additions(names, function_sizes(syms, syms.len() as int), names.len() as int)
}

/// Whether every function with a place and a size ends in the address space.
pub open spec fn functions_end(syms: Seq<SymbolModel>) -> bool {
    forall|i: int|
        0 <= i < syms.len() && is_sized_function(#[trigger] syms[i]) ==> syms[i].address + syms[i].size
            <= u32::MAX
}

/// The file with the symbols `names` with the size records that it needs.
pub open spec fn with_sizes(d: Seq<u8>, syms: Seq<SymbolModel>, names: Seq<FileSymbol>) -> Result<
    Seq<u8>,
    ErrorModel,
> {
    let additions = all_additions(syms, names);
    if additions.is_empty() {
        Ok(d)
    } else {
        inserted(d, additions)
    }
}

/// Whether the functions end in the address space, and the file holds what inserting the size
/// records that it needs reads and writes.
pub open spec fn sizes_fit(d: Seq<u8>, syms: Seq<SymbolModel>, names: Seq<FileSymbol>) -> bool {
    &&& functions_end(syms)
    &&& !all_additions(syms, names).is_empty() ==> insertable(d, all_additions(syms, names))
}

/// The symbols that the `object` crate reads from a file: `None` where it cannot read the file.
pub uninterp spec fn file_symbols(data: Seq<u8>) -> Option<Seq<FileSymbol>>;

pub open spec fn file_symbol_views(v: Seq<(usize, Option<String>)>) -> Seq<FileSymbol> {
    Seq::new(v.len(), |i: int| (v[i].0, obj::opt_text(v[i].1)))
}

/// Reads the symbols of a file with `object::File::parse` and `symbols`: each with its `index` in
/// the symbol table, and with its `name` where that can be read. Which symbols a file has, and
/// whether it can be read, is taken to depend on its bytes alone.
#[verifier::external_body]
fn read_file_symbols(data: &Vec<u8>) -> (r: Result<Vec<(usize, Option<String>)>, object::read::Error>)
    ensures
        match r {
            Ok(v) => file_symbols(data@) == Some(file_symbol_views(v@)),
            Err(_) => file_symbols(data@) is None,
        },
{
    let file = object::File::parse(data.as_slice())?;
    Ok(file.symbols().map(|s| (s.index().0, s.name().ok().map(String::from))).collect())
}

/// The size that a symbol table index gets a record for.
pub open spec fn added(additions: Map<usize, u32>, i: int) -> Option<u32> {
    if 0 <= i <= usize::MAX && additions.contains_key(i as usize) {
        Some(additions[i as usize])
    } else {
        None
    }
}

/// The auxiliary record for a function of `size` bytes.
pub open spec fn size_record(size: u32) -> Seq<u8> {
    Seq::new(
        coff_table::SYMBOL_SIZE as nat,
        |k: int|
            if 4 <= k < 8 {
                coff_table::le_bytes(size)[k - 4]
            } else {
                0
            },
    )
}

/// The bytes of record `i` and its auxiliary records. One that gets a size becomes external, since
/// a size record is defined for an external function.
pub open spec fn expanded(d: Seq<u8>, additions: Map<usize, u32>, i: int) -> Seq<u8> {
    let at = coff_table::record_at(d, i);
    match added(additions, i) {
        Some(size) => d.subrange(at, at + coff_table::SYMBOL_SIZE).update(
            16,
            coff_table::CLASS_EXTERNAL,
        ).update(17, 1) + size_record(size),
        None => d.subrange(at, coff_table::record_at(d, i + 1 + coff_table::aux_count(d, i))),
    }
}

pub open spec fn expanded_all(d: Seq<u8>, additions: Map<usize, u32>, starts: Seq<int>) -> Seq<u8>
    decreases starts.len(),
{
    if starts.len() == 0 {
        Seq::empty()
    } else {
        expanded_all(d, additions, starts.drop_last()) + expanded(d, additions, starts.last())
    }
}

/// The symbol table with the size records.
pub open spec fn new_table(d: Seq<u8>, additions: Map<usize, u32>) -> Seq<u8> {
    expanded_all(d, additions, coff_table::record_starts(d, 0))
}

/// Whether some symbol that gets a size among `starts` has auxiliary records already.
pub open spec fn conflicts(d: Seq<u8>, additions: Map<usize, u32>, starts: Seq<int>) -> bool {
    exists|p: int|
        0 <= p < starts.len() && added(additions, #[trigger] starts[p]) is Some
            && coff_table::aux_count(d, starts[p]) != 0
}

/// Where `old` stands in the table that `starts` expand to. Only symbols have a place there; all
/// else maps to 0.
pub open spec fn index_among(d: Seq<u8>, additions: Map<usize, u32>, starts: Seq<int>, old: int) -> u32 {
    if starts.contains(old) {
        (expanded_all(d, additions, starts.take(starts.index_of(old))).len()
            / coff_table::SYMBOL_SIZE as nat) as u32
    } else {
        0
    }
}

/// The new symbol table index for the index `old`.
pub open spec fn new_index(d: Seq<u8>, additions: Map<usize, u32>, old: int) -> u32 {
    index_among(d, additions, coff_table::record_starts(d, 0), old)
}

/// Whether the records from `from` on stand in the file, as far as they are reached.
pub open spec fn records_in_file(d: Seq<u8>, additions: Map<usize, u32>, from: int) -> bool
    decreases
            (if from < coff_table::table_count(d) {
                coff_table::table_count(d) - from
            } else {
                0
            }),
{
    from < coff_table::table_count(d) ==> {
        let aux = coff_table::aux_count(d, from);
        &&& coff_table::record_at(d, from + 1) <= d.len()
        &&& if added(additions, from) is Some {
            aux == 0 ==> records_in_file(d, additions, from + 1)
        } else {
            &&& coff_table::record_at(d, from + 1 + aux) <= d.len()
            &&& records_in_file(d, additions, from + 1 + aux)
        }
    }
}

/// The first symbol index at `sites` that the symbol table does not have.
pub open spec fn first_invalid(d: Seq<u8>, sites: Seq<int>) -> Option<int>
    decreases sites.len(),
{
    if sites.len() == 0 {
        None
    } else {
        match first_invalid(d, sites.drop_last()) {
            Some(old) => Some(old),
            None => {
                let old = coff_table::le32(d, sites.last());
                if old < coff_table::table_count(d) {
                    None
                } else {
                    Some(old)
                }
            },
        }
    }
}

/// Whether the sites stand in the file, and before the symbol table where they are valid, as far
/// as they are reached.
pub open spec fn sites_in_file(d: Seq<u8>, sites: Seq<int>) -> bool
    decreases sites.len(),
{
    sites.len() > 0 ==> {
        &&& sites_in_file(d, sites.drop_last())
        &&& first_invalid(d, sites.drop_last()) is None ==> {
            &&& sites.last() + 4 <= d.len()
            &&& coff_table::le32(d, sites.last()) < coff_table::table_count(d) ==> sites.last() + 4
                <= coff_table::table_start(d)
        }
    }
}

/// Whether the relocation fields of the header of section `s` stand in the file.
pub open spec fn header_in_file(d: Seq<u8>, s: int) -> bool {
    let h = coff_table::section_header(d, s);
    &&& h + 34 <= d.len()
    &&& coff_table::le16(d, h + 32) == 0xFFFF ==> {
        &&& h + 40 <= d.len()
        &&& coff_table::count_overflows(d, h) ==> coff_table::le32(d, h + 24) + 4 <= d.len()
    }
}

/// Whether the first `n` sections and their relocations stand in the file, as far as they are
/// reached.
pub open spec fn sections_in_file(d: Seq<u8>, n: int) -> bool
    decreases n,
{
    n > 0 ==> {
        &&& sections_in_file(d, n - 1)
        &&& first_invalid(d, coff_table::relocation_sites(d, n - 1)) is None ==> header_in_file(
            d,
            n - 1,
        ) && sites_in_file(d, coff_table::section_sites(d, n - 1))
    }
}

/// `base` with the new symbol indices at `sites`.
pub open spec fn patched(base: Seq<u8>, d: Seq<u8>, additions: Map<usize, u32>, sites: Seq<int>) -> Seq<u8>
    decreases sites.len(),
{
    if sites.len() == 0 {
        base
    } else {
        coff_table::overwritten(
            patched(base, d, additions, sites.drop_last()),
            sites.last(),
            coff_table::le_bytes(
                new_index(d, additions, coff_table::le32(d, sites.last())),
            ),
        )
    }
}

pub open spec fn all_sites(d: Seq<u8>) -> Seq<int> {
    coff_table::relocation_sites(d, coff_table::section_count(d))
}

/// The file with the size records: the same bytes up to the symbol table, but for the symbol
/// indices of relocations and the record count; then the new table; then what followed the old.
pub open spec fn inserted(d: Seq<u8>, additions: Map<usize, u32>) -> Result<Seq<u8>, ErrorModel> {
    let table = new_table(d, additions);
    let start = coff_table::table_start(d);
    if conflicts(d, additions, coff_table::record_starts(d, 0)) {
        Err(ErrorModel::UnexpectedAuxRecord)
    } else {
        match first_invalid(d, all_sites(d)) {
            Some(old) => Err(ErrorModel::InvalidRelocationSymbol(old)),
            None => Ok(
                coff_table::overwritten(
                    patched(d.take(start), d, additions, all_sites(d)),
                    12,
                    coff_table::le_bytes((table.len() / coff_table::SYMBOL_SIZE as nat) as u32),
                ) + table + d.skip(coff_table::record_at(d, coff_table::table_count(d))),
            ),
        }
    }
}

/// Whether what inserting the size records reads and writes stands in the file.
pub open spec fn insertable(d: Seq<u8>, additions: Map<usize, u32>) -> bool {
    &&& d.len() >= 16
    &&& records_in_file(d, additions, 0)
    &&& !conflicts(d, additions, coff_table::record_starts(d, 0)) ==> {
        &&& coff_table::table_start(d) <= d.len()
        &&& d.len() >= 18
        &&& sections_in_file(d, coff_table::section_count(d))
        &&& first_invalid(d, all_sites(d)) is None ==> {
            &&& coff_table::table_start(d) >= 16
            &&& coff_table::record_at(d, coff_table::table_count(d)) <= d.len()
        }
    }
}

proof fn lemma_index_among_push(
    d: Seq<u8>,
    additions: Map<usize, u32>,
    starts: Seq<int>,
    next: int,
    old: int,
)
    requires
        starts.no_duplicates(),
        !starts.contains(next),
    ensures
        old != next ==> index_among(d, additions, starts.push(next), old) == index_among(
            d,
            additions,
            starts,
            old,
        ),
        old == next ==> index_among(d, additions, starts.push(next), old) == (expanded_all(
            d,
            additions,
            starts,
        ).len() / coff_table::SYMBOL_SIZE as nat) as u32,
{
    let longer = starts.push(next);
    assert(longer[starts.len() as int] == next);
    if old == next {
        let p = longer.index_of(old);
        assert(0 <= p < longer.len() && longer[p] == old);
        if p < starts.len() {
            assert(starts[p] == next);
        }
        assert(longer.take(p) =~= starts);
    } else if starts.contains(old) {
        let q = starts.index_of(old);
        assert(0 <= q < starts.len() && starts[q] == old);
        assert(longer[q] == old);
        let p = longer.index_of(old);
        assert(0 <= p < longer.len() && longer[p] == old);
        assert(p < starts.len() && starts[p] == old);
        assert(p == q);
        assert(longer.take(p) =~= starts.take(q));
    } else if longer.contains(old) {
        let p = longer.index_of(old);
        assert(starts[p] == old);
    }
}

fn copy_part(d: &Vec<u8>, from: usize, to: usize) -> (r: Vec<u8>)
    requires
        from <= to <= d.len(),
    ensures
        r@ == d@.subrange(from as int, to as int),
{
    slice_to_vec(slice_subrange(d.as_slice(), from, to))
}

fn make_size_record(size: u32) -> (r: Vec<u8>)
    ensures
        r@ == size_record(size),
{
    let mut r: Vec<u8> = Vec::new();
    let mut k: usize = 0;
    while k < coff_table::SYMBOL_SIZE
        invariant
            k <= coff_table::SYMBOL_SIZE,
            r.len() == k,
            forall|j: int| 0 <= j < k ==> #[trigger] r@[j] == 0,
        decreases coff_table::SYMBOL_SIZE - k,
    {
        r.push(0);
        k = k + 1;
    }
    coff_table::write32(&mut r, 4, size);
    assert(r@ =~= size_record(size));
    r
}

/// The symbol table with the size records, and the new index of each old one. `None` where a
/// record does not stand in the file.
fn expand_table(d: &Vec<u8>, additions: &HashMap<usize, u32>) -> (r: Option<
    Result<(Vec<u8>, Vec<u32>), RelinkError>,
>)
    requires
        d.len() >= 16,
    ensures
        r is Some <==> records_in_file(d@, additions@, 0),
        match r {
            None => true,
            Some(Err(e)) => conflicts(d@, additions@, coff_table::record_starts(d@, 0)) && e@
                == ErrorModel::UnexpectedAuxRecord,
            Some(Ok((symbols, remap))) => {
                &&& !conflicts(d@, additions@, coff_table::record_starts(d@, 0))
                &&& symbols@ == new_table(d@, additions@)
                &&& remap.len() == coff_table::table_count(d@)
                &&& forall|i: int|
                    0 <= i < remap.len() ==> #[trigger] remap@[i] == new_index(d@, additions@, i)
            },
        },
{
    let table: u64 = coff_table::read32(d, 8) as u64;
    let count: u64 = coff_table::read32(d, 12) as u64;
    let ghost add = additions@;
    let ghost starts = coff_table::record_starts(d@, 0);
    let ghost mut done: Seq<int> = Seq::empty();
    let mut symbols: Vec<u8> = Vec::new();
    let mut remap: Vec<u32> = Vec::new();
    let mut index: u64 = 0;
    assert(done + coff_table::record_starts(d@, 0) =~= starts);
    while index < count
        invariant
            d.len() >= 16,
            add == additions@,
            table == coff_table::table_start(d@),
            count == coff_table::table_count(d@),
            count <= u32::MAX,
            table <= u32::MAX,
            index <= count + 256,
            starts == coff_table::record_starts(d@, 0),
            done + coff_table::record_starts(d@, index as int) == starts,
            done.no_duplicates(),
            forall|p: int| 0 <= p < done.len() ==> 0 <= #[trigger] done[p] < index,
            records_in_file(d@, add, 0) == records_in_file(d@, add, index as int),
            !conflicts(d@, add, done),
            symbols@ == expanded_all(d@, add, done),
            remap.len() == (if index < count {
                index
            } else {
                count
            }),
            forall|i: int|
                0 <= i < remap.len() ==> #[trigger] remap@[i] == index_among(d@, add, done, i),
        decreases count + 256 - index,
    {
        broadcast use vstd::std_specs::hash::group_hash_axioms;

        let offset: u64 = table + index * coff_table::SYMBOL_SIZE as u64;
        let len: u64 = d.len() as u64;
        if offset + coff_table::SYMBOL_SIZE as u64 > len {
            return None;
        }
        let aux: u64 = d[(offset + 17) as usize] as u64;
        assert(aux == coff_table::aux_count(d@, index as int));
        let ghost before = done;
        let ghost rest = coff_table::record_starts(d@, index + 1 + aux);
        let place: u32 = (symbols.len() / coff_table::SYMBOL_SIZE) as u32;
        proof {
            assert(coff_table::record_starts(d@, index as int) =~= seq![index as int] + rest);
            done = done.push(index as int);
            assert(done + rest =~= starts);
            assert(done.drop_last() =~= before);
            assert(!before.contains(index as int));
            assert forall|i: int| true implies #[trigger] index_among(d@, add, done, i) == (if i
                == index {
                place
            } else {
                index_among(d@, add, before, i)
            }) by {
                lemma_index_among_push(d@, add, before, index as int, i);
            }
        }
        match additions.get(&(index as usize)) {
            Some(size) => {
                assert(added(add, index as int) == Some(*size));
                if aux != 0 {
                    assert(starts[before.len() as int] == index);
                    assert(added(add, starts[before.len() as int]) is Some);
                    return Some(Err(RelinkError::UnexpectedAuxRecord));
                }
                let mut symbol = copy_part(
                    d,
                    offset as usize,
                    offset as usize + coff_table::SYMBOL_SIZE,
                );
                symbol.set(16, coff_table::CLASS_EXTERNAL);
                symbol.set(17, 1);
                symbols.append(&mut symbol);
                let mut record = make_size_record(*size);
                symbols.append(&mut record);
                assert(symbols@ =~= expanded_all(d@, add, before) + expanded(
                    d@,
                    add,
                    index as int,
                ));
            },
            None => {
                assert(added(add, index as int) is None);
                let end: u64 = offset + coff_table::SYMBOL_SIZE as u64 * (aux + 1);
                if end > len {
                    return None;
                }
                let mut symbol = copy_part(d, offset as usize, end as usize);
                symbols.append(&mut symbol);
                assert(symbols@ =~= expanded_all(d@, add, before) + expanded(
                    d@,
                    add,
                    index as int,
                ));
            },
        }
        let ghost earlier = remap@;
        remap.push(place);
        let mut k: u64 = 0;
        while k < aux && index + 1 + k < count
            invariant
                index < count,
                count <= u32::MAX,
                k <= aux <= 255,
                earlier.len() == index,
                remap.len() == index + 1 + k,
                remap.len() <= count,
                remap@[index as int] == place,
                forall|i: int| 0 <= i < index ==> #[trigger] remap@[i] == earlier[i],
                forall|i: int| index < i < remap.len() ==> #[trigger] remap@[i] == 0,
            decreases aux - k,
        {
            remap.push(0);
            k = k + 1;
        }
        proof {
            assert forall|i: int| 0 <= i < remap.len() implies #[trigger] remap@[i] == index_among(
                d@,
                add,
                done,
                i,
            ) by {
                assert(index_among(d@, add, done, i) == (if i == index {
                    place
                } else {
                    index_among(d@, add, before, i)
                }));
                if i < index {
                    assert(remap@[i] == earlier[i]);
                } else if i > index {
                    assert(!before.contains(i));
                }
            }
            assert forall|p: int|
                0 <= p < done.len() && added(add, #[trigger] done[p]) is Some implies coff_table::aux_count(
            d@, done[p]) == 0 by {
                if p < before.len() {
                    assert(before[p] == done[p]);
                }
            }
        }
        index = index + 1 + aux;
    }
    assert(coff_table::record_starts(d@, index as int) =~= Seq::<int>::empty());
    assert(done =~= starts);
    Some(Ok((symbols, remap)))
}

pub proof fn lemma_first_invalid_concat(d: Seq<u8>, a: Seq<int>, b: Seq<int>)
    ensures
        first_invalid(d, a + b) == (match first_invalid(d, a) {
            Some(old) => Some(old),
            None => first_invalid(d, b),
        }),
    decreases b.len(),
{
    if b.len() == 0 {
        assert(a + b =~= a);
    } else {
        assert((a + b).drop_last() =~= a + b.drop_last());
        lemma_first_invalid_concat(d, a, b.drop_last());
    }
}

proof fn lemma_patched_concat(
    base: Seq<u8>,
    d: Seq<u8>,
    additions: Map<usize, u32>,
    a: Seq<int>,
    b: Seq<int>,
)
    ensures
        patched(base, d, additions, a + b) == patched(
            patched(base, d, additions, a),
            d,
            additions,
            b,
        ),
    decreases b.len(),
{
    if b.len() == 0 {
        assert(a + b =~= a);
    } else {
        assert((a + b).drop_last() =~= a + b.drop_last());
        lemma_patched_concat(base, d, additions, a, b.drop_last());
    }
}

/// What holds of the first `m` sites decides where one of them is invalid.
proof fn lemma_sites_stop(d: Seq<u8>, sites: Seq<int>, m: int)
    requires
        0 <= m <= sites.len(),
    ensures
        sites_in_file(d, sites) ==> sites_in_file(d, sites.take(m)),
        first_invalid(d, sites.take(m)) is Some ==> first_invalid(d, sites) == first_invalid(
            d,
            sites.take(m),
        ) && (sites_in_file(d, sites.take(m)) ==> sites_in_file(d, sites)),
    decreases sites.len() - m,
{
    if m == sites.len() {
        assert(sites.take(m) =~= sites);
    } else {
        lemma_sites_stop(d, sites, m + 1);
        assert(sites.take(m + 1).drop_last() =~= sites.take(m));
    }
}

/// What holds of the first `m` sections decides where one of their relocations is invalid.
proof fn lemma_sections_stop(d: Seq<u8>, m: int, n: int)
    requires
        0 <= m <= n,
    ensures
        sections_in_file(d, n) ==> sections_in_file(d, m),
        first_invalid(d, coff_table::relocation_sites(d, m)) is Some ==> first_invalid(
            d,
            coff_table::relocation_sites(d, n),
        ) == first_invalid(d, coff_table::relocation_sites(d, m)) && (sections_in_file(d, m)
            ==> sections_in_file(d, n)),
    decreases n - m,
{
    if m < n {
        lemma_sections_stop(d, m, n - 1);
        lemma_first_invalid_concat(
            d,
            coff_table::relocation_sites(d, n - 1),
            coff_table::section_sites(d, n - 1),
        );
    }
}

/// Writes the new symbol indices of the relocations of section `s`. `None` where what is read or
/// written does not stand in the file.
fn patch_section(
    d: &Vec<u8>,
    remap: &Vec<u32>,
    s: u32,
    result: &mut Vec<u8>,
    Ghost(additions): Ghost<Map<usize, u32>>,
) -> (r: Option<Result<(), RelinkError>>)
    requires
        d.len() >= 18,
        s < 0x1_0000,
        remap.len() == coff_table::table_count(d@),
        forall|i: int|
            0 <= i < remap.len() ==> #[trigger] remap@[i] == new_index(d@, additions, i),
        old(result).len() == coff_table::table_start(d@),
    ensures
        final(result).len() == old(result).len(),
        r is Some <==> header_in_file(d@, s as int) && sites_in_file(
            d@,
            coff_table::section_sites(d@, s as int),
        ),
        match r {
            None => true,
            Some(Err(e)) => first_invalid(d@, coff_table::section_sites(d@, s as int)) matches Some(
                old_index,
            ) && e@ == ErrorModel::InvalidRelocationSymbol(old_index),
            Some(Ok(_)) => {
                &&& first_invalid(d@, coff_table::section_sites(d@, s as int)) is None
                &&& final(result)@ == patched(
                    old(result)@,
                    d@,
                    additions,
                    coff_table::section_sites(d@, s as int),
                )
            },
        },
{
    let len: u64 = d.len() as u64;
    let header: u64 = coff_table::FILE_HEADER_SIZE as u64 + coff_table::read16(d, 16) as u64
        + coff_table::SECTION_HEADER_SIZE as u64 * (s as u64);
    let ghost h = coff_table::section_header(d@, s as int);
    assert(header == h);
    if header + 34 > len {
        return None;
    }
    let relocations: u64 = coff_table::read32(d, (header + 24) as usize) as u64;
    let short_count: u32 = coff_table::read16(d, (header + 32) as usize);
    let mut first: u32 = 0;
    let mut count: u32 = short_count;
    if short_count == 0xFFFF {
        if header + 40 > len {
            return None;
        }
        let flags: u32 = coff_table::read32(d, (header + 36) as usize);
        if flags / 0x100_0000 % 2 == 1 {
            if relocations + 4 > len {
                return None;
            }
            // COFF relocation-overflow sentinel, not a symbol reference
            count = coff_table::read32(d, relocations as usize);
            first = 1;
        }
    }
    let ghost sites = coff_table::section_sites(d@, s as int);
    let ghost base = result@;
    let mut k: u32 = first;
    assert(sites.take(0) =~= Seq::<int>::empty());
    while k < count
        invariant
            d.len() >= 18,
            len == d.len(),
            header == h,
            h == coff_table::section_header(d@, s as int),
            header_in_file(d@, s as int),
            first == coff_table::first_relocation(d@, h),
            count == coff_table::relocation_count(d@, h),
            relocations == coff_table::le32(d@, h + 24),
            relocations <= u32::MAX,
            sites == coff_table::section_sites(d@, s as int),
            first <= k,
            k <= count || k == first,
            k - first <= sites.len(),
            remap.len() == coff_table::table_count(d@),
            forall|i: int|
                0 <= i < remap.len() ==> #[trigger] remap@[i] == new_index(d@, additions, i),
            result.len() == coff_table::table_start(d@),
            result.len() == old(result).len(),
            sites_in_file(d@, sites.take(k - first)),
            first_invalid(d@, sites.take(k - first)) is None,
            result@ == patched(base, d@, additions, sites.take(k - first)),
        decreases count - k,
    {
        let ghost m = k - first;
        let offset: u64 = relocations + coff_table::RELOCATION_SIZE as u64 * (k as u64) + 4;
        proof {
            assert(sites[m] == offset);
            assert(sites.take(m + 1).drop_last() =~= sites.take(m));
            assert(sites.take(m + 1).last() == offset);
            lemma_sites_stop(d@, sites, m + 1);
        }
        if offset + 4 > len {
            return None;
        }
        let old_index: u32 = coff_table::read32(d, offset as usize);
        if old_index as usize >= remap.len() {
            return Some(Err(RelinkError::InvalidRelocationSymbol(old_index)));
        }
        if offset + 4 > result.len() as u64 {
            return None;
        }
        coff_table::write32(result, offset as usize, remap[old_index as usize]);
        k = k + 1;
    }
    assert(sites.take(k - first) =~= sites);
    Some(Ok(()))
}

/// Writes the new symbol indices of all relocations. `None` where what is read or written does not
/// stand in the file.
fn patch_sections(
    d: &Vec<u8>,
    remap: &Vec<u32>,
    result: &mut Vec<u8>,
    Ghost(additions): Ghost<Map<usize, u32>>,
) -> (r: Option<Result<(), RelinkError>>)
    requires
        d.len() >= 18,
        remap.len() == coff_table::table_count(d@),
        forall|i: int|
            0 <= i < remap.len() ==> #[trigger] remap@[i] == new_index(d@, additions, i),
        old(result).len() == coff_table::table_start(d@),
    ensures
        final(result).len() == old(result).len(),
        r is Some <==> sections_in_file(d@, coff_table::section_count(d@)),
        match r {
            None => true,
            Some(Err(e)) => first_invalid(d@, all_sites(d@)) matches Some(old_index) && e@
                == ErrorModel::InvalidRelocationSymbol(old_index),
            Some(Ok(_)) => {
                &&& first_invalid(d@, all_sites(d@)) is None
                &&& final(result)@ == patched(old(result)@, d@, additions, all_sites(d@))
            },
        },
{
    let count: u32 = coff_table::read16(d, 2);
    let ghost base = result@;
    let mut s: u32 = 0;
    while s < count
        invariant
            d.len() >= 18,
            s <= count <= 0xFFFF,
            count == coff_table::section_count(d@),
            remap.len() == coff_table::table_count(d@),
            forall|i: int|
                0 <= i < remap.len() ==> #[trigger] remap@[i] == new_index(d@, additions, i),
            result.len() == coff_table::table_start(d@),
            result.len() == old(result).len(),
            sections_in_file(d@, s as int),
            first_invalid(d@, coff_table::relocation_sites(d@, s as int)) is None,
            result@ == patched(
                base,
                d@,
                additions,
                coff_table::relocation_sites(d@, s as int),
            ),
        decreases count - s,
    {
        let ghost before = coff_table::relocation_sites(d@, s as int);
        let ghost sites = coff_table::section_sites(d@, s as int);
        proof {
            lemma_sections_stop(d@, s + 1, count as int);
            lemma_first_invalid_concat(d@, before, sites);
            lemma_patched_concat(base, d@, additions, before, sites);
            assert(coff_table::relocation_sites(d@, s + 1) == before + sites);
        }
        match patch_section(d, remap, s, result, Ghost(additions)) {
            None => {
                return None;
            },
            Some(Err(e)) => {
                return Some(Err(e));
            },
            Some(Ok(_)) => {},
        }
        s = s + 1;
    }
    Some(Ok(()))
}

/// The file with the size records. `None` where what is read or written does not stand in the
/// file.
fn insert_records(d: &Vec<u8>, additions: &HashMap<usize, u32>) -> (r: Option<
    Result<Vec<u8>, RelinkError>,
>)
    ensures
        r is Some <==> insertable(d@, additions@),
        match r {
            None => true,
            Some(Ok(bytes)) => inserted(d@, additions@) == Ok::<Seq<u8>, ErrorModel>(bytes@),
            Some(Err(e)) => inserted(d@, additions@) == Err::<Seq<u8>, ErrorModel>(e@),
        },
{
    if d.len() < 16 {
        return None;
    }
    let (symbols, remap) = match expand_table(d, additions) {
        None => {
            return None;
        },
        Some(Err(e)) => {
            return Some(Err(e));
        },
        Some(Ok(pair)) => pair,
    };
    let table: u64 = coff_table::read32(d, 8) as u64;
    let count: u64 = coff_table::read32(d, 12) as u64;
    let len: u64 = d.len() as u64;
    if table > len || len < 18 {
        return None;
    }
    let mut result = copy_part(d, 0, table as usize);
    assert(result@ =~= d@.take(table as int));
    match patch_sections(d, &remap, &mut result, Ghost(additions@)) {
        None => {
            return None;
        },
        Some(Err(e)) => {
            return Some(Err(e));
        },
        Some(Ok(_)) => {},
    }
    let end: u64 = table + coff_table::SYMBOL_SIZE as u64 * count;
    if table < 16 || end > len {
        return None;
    }
    coff_table::write32(&mut result, 12, (symbols.len() / coff_table::SYMBOL_SIZE) as u32);
    let mut symbols = symbols;
    let mut rest = copy_part(d, end as usize, d.len());
    assert(rest@ =~= d@.skip(end as int));
    result.append(&mut symbols);
    result.append(&mut rest);
    Some(Ok(result))
}

fn holds_label(symbols: &Vec<ObjSymbol>, i: usize) -> (r: bool)
    requires
        i < symbols.len(),
        is_sized_function(symbols@[i as int]@),
        symbols@[i as int].address + symbols@[i as int].size <= u32::MAX,
    ensures
        r == needs_size(obj::views(symbols@), i as int),
{
    let ghost syms = obj::views(symbols@);
    let function = &symbols[i];
    let end: u32 = function.address + function.size;
    let section: usize = function.section.unwrap();
    let mut j: usize = 0;
    while j < symbols.len()
        invariant
            i < symbols.len(),
            j <= symbols.len(),
            syms == obj::views(symbols@),
            function@ == syms[i as int],
            is_sized_function(syms[i as int]),
            function.section == Some(section),
            end == function.address + function.size,
            forall|k: int| 0 <= k < j ==> !#[trigger] is_inner_label(syms, i as int, k),
        decreases symbols.len() - j,
    {
        let label = &symbols[j];
        assert(syms[j as int] == label@);
        let same_section: bool = match label.section {
            Some(s) => s == section,
            None => false,
        };
        if same_section && function.address <= label.address && label.address < end && label.kind
            != ObjSymbolKind::Function && label.flags.contains(ObjSymbolFlags::CoffExternal) {
            assert(is_inner_label(syms, i as int, j as int));
            return true;
        }
        j = j + 1;
    }
    false
}

fn sizes_by_name(symbols: &Vec<ObjSymbol>) -> (r: StringHashMap<u32>)
    requires
        functions_end(obj::views(symbols@)),
    ensures
        r@ == function_sizes(obj::views(symbols@), symbols.len() as int),
{
    let ghost syms = obj::views(symbols@);
    let mut sizes: StringHashMap<u32> = StringHashMap::new();
    let mut i: usize = 0;
    while i < symbols.len()
        invariant
            i <= symbols.len(),
            syms == obj::views(symbols@),
            functions_end(syms),
            sizes@ == function_sizes(syms, i as int),
        decreases symbols.len() - i,
    {
        let symbol = &symbols[i];
        assert(syms[i as int] == symbol@);
        if symbol.kind == ObjSymbolKind::Function && symbol.section.is_some() && symbol.size != 0 {
            if holds_label(symbols, i) {
                sizes.insert(symbol.name.clone(), symbol.size);
            }
        }
        i = i + 1;
    }
    sizes
}

fn additions_for(symbols: &Vec<ObjSymbol>, names: &Vec<(usize, Option<String>)>) -> (r: HashMap<
    usize,
    u32,
>)
    requires
        functions_end(obj::views(symbols@)),
    ensures
        r@ == all_additions(obj::views(symbols@), file_symbol_views(names@)),
{
    broadcast use vstd::std_specs::hash::group_hash_axioms;

    let sizes = sizes_by_name(symbols);
    let ghost models = file_symbol_views(names@);
    let mut r: HashMap<usize, u32> = HashMap::new();
    let mut i: usize = 0;
    while i < names.len()
        invariant
            i <= names.len(),
            models == file_symbol_views(names@),
            r@ == size_additions(models, sizes@, i as int),
        decreases names.len() - i,
    {
        broadcast use vstd::std_specs::hash::group_hash_axioms;

        let index: usize = names[i].0;
        assert(models[i as int] == (index, obj::opt_text(names@[i as int].1)));
        if let Some(name) = &names[i].1 {
            if let Some(size) = sizes.get(name.as_str()) {
                let _ = r.insert(index, *size);
            }
        }
        i = i + 1;
    }
    r
}

/// Adds size records to a file whose symbols are `names`.
pub fn add_sizes_for(data: Vec<u8>, image: &ObjInfo, names: &Vec<(usize, Option<String>)>) -> (r:
    Result<Vec<u8>, RelinkError>)
    requires
        sizes_fit(data@, image@.symbols, file_symbol_views(names@)),
    ensures
        match r {
            Ok(bytes) => with_sizes(data@, image@.symbols, file_symbol_views(names@)) == Ok::<
                Seq<u8>,
                ErrorModel,
            >(bytes@),
            Err(e) => with_sizes(data@, image@.symbols, file_symbol_views(names@)) == Err::<
                Seq<u8>,
                ErrorModel,
            >(e@),
        },
{
    let additions = additions_for(&image.symbols, names);
    if additions.is_empty() {
        return Ok(data);
    }
    insert_records(&data, &additions).unwrap()
}

/// Adds size records to the object file `data` for the functions of `image` that hold external
/// labels.
pub fn add_function_sizes(data: Vec<u8>, image: &ObjInfo) -> (r: Result<Vec<u8>, RelinkError>)
    requires
        file_symbols(data@) matches Some(names) ==> sizes_fit(data@, image@.symbols, names),
    ensures
        match file_symbols(data@) {
            None => r matches Err(e) && e@ == ErrorModel::Parse,
            Some(names) => match r {
                Ok(bytes) => with_sizes(data@, image@.symbols, names) == Ok::<Seq<u8>, ErrorModel>(
                    bytes@,
                ),
                Err(e) => with_sizes(data@, image@.symbols, names) == Err::<Seq<u8>, ErrorModel>(
                    e@,
                ),
            },
        },
{
    match read_file_symbols(&data) {
        Ok(names) => add_sizes_for(data, image, &names),
        Err(e) => Err(RelinkError::Parse(e)),
    }
}

fn all_functions_end(symbols: &Vec<ObjSymbol>) -> (r: bool)
    ensures
        r == functions_end(obj::views(symbols@)),
{
    let ghost syms = obj::views(symbols@);
    let mut i: usize = 0;
    while i < symbols.len()
        invariant
            i <= symbols.len(),
            syms == obj::views(symbols@),
            forall|k: int|
                0 <= k < i && is_sized_function(#[trigger] syms[k]) ==> syms[k].address
                    + syms[k].size <= u32::MAX,
        decreases symbols.len() - i,
    {
        let symbol = &symbols[i];
        assert(syms[i as int] == symbol@);
        if symbol.kind == ObjSymbolKind::Function && symbol.section.is_some() && symbol.size != 0
            && symbol.size > u32::MAX - symbol.address {
            return false;
        }
        i = i + 1;
    }
    true
}

/// Adds size records where the functions end in the address space and the file holds what that
/// reads and writes. `None` where they do not.
pub fn try_add_function_sizes(data: Vec<u8>, image: &ObjInfo) -> (r: Option<
    Result<Vec<u8>, RelinkError>,
>)
    ensures
        match file_symbols(data@) {
            None => r matches Some(Err(e)) && e@ == ErrorModel::Parse,
            Some(names) => {
                &&& r is Some <==> sizes_fit(data@, image@.symbols, names)
                &&& match r {
                    None => true,
                    Some(Ok(bytes)) => with_sizes(data@, image@.symbols, names) == Ok::<
                        Seq<u8>,
                        ErrorModel,
                    >(bytes@),
                    Some(Err(e)) => with_sizes(data@, image@.symbols, names) == Err::<
                        Seq<u8>,
                        ErrorModel,
                    >(e@),
                }
            },
        },
{
    if let Ok(names) = read_file_symbols(&data) {
        if !all_functions_end(&image.symbols) {
            return None;
        }
        let additions = additions_for(&image.symbols, &names);
        if !additions.is_empty() && insert_records(&data, &additions).is_none() {
            return None;
        }
    }
    Some(add_function_sizes(data, image))
}

} // verus!

//! Sizes are added once.
use crate::coff_table;
use crate::error::ErrorModel;
use crate::function_sizes;
use crate::function_sizes::FileSymbol;
use crate::laws::sizes;
use crate::obj::SymbolModel;
use vstd::prelude::*;

verus! {

/// Where the symbol at place `p` of the table goes.
spec fn new_place(d: Seq<u8>, additions: Map<usize, u32>, p: int) -> int {
    let starts = coff_table::record_starts(d, 0);
    starts[p] + sizes::additions_among(additions, starts.take(p))
}

/// Whether a file got size records, and its header still says where the symbol table starts.
spec fn was_sized(d: Seq<u8>, additions: Map<usize, u32>) -> bool {
    &&& function_sizes::insertable(d, additions)
    &&& function_sizes::inserted(d, additions) is Ok
    &&& function_sizes::new_table(d, additions).len() / 18 <= u32::MAX
    &&& forall|x: int| 8 <= x < 12 ==> !#[trigger] sizes::in_sites(function_sizes::all_sites(d), x)
}

/// The records from `from` on reach as far as the table.
proof fn lemma_records_reach(d: Seq<u8>, from: int)
    requires
        0 <= from < coff_table::table_count(d),
    ensures
        coff_table::record_starts(d, from).len() > 0,
        coff_table::record_starts(d, from).last() + 1 + coff_table::aux_count(
            d,
            coff_table::record_starts(d, from).last(),
        ) >= coff_table::table_count(d),
    decreases coff_table::table_count(d) - from,
{
    let next = from + 1 + coff_table::aux_count(d, from);
    let starts = coff_table::record_starts(d, from);
    let rest = coff_table::record_starts(d, next);
    assert(starts == seq![from] + rest);
    if next < coff_table::table_count(d) {
        lemma_records_reach(d, next);
        assert(starts.last() == rest.last());
    } else {
        assert(starts.last() == from);
    }
}

/// The file after, and the new place of a symbol in it.
proof fn lemma_sized(d: Seq<u8>, additions: Map<usize, u32>, p: int) -> (r: Seq<u8>)
    requires
        was_sized(d, additions),
        0 <= p < coff_table::record_starts(d, 0).len(),
    ensures
        function_sizes::inserted(d, additions) == Ok::<Seq<u8>, ErrorModel>(r),
        r.len() >= 16,
        coff_table::table_start(r) == coff_table::table_start(d),
        coff_table::table_count(r) == function_sizes::new_table(d, additions).len() / 18,
        0 <= new_place(d, additions, p) < coff_table::table_count(r),
        p == 0 ==> new_place(d, additions, p) == 0,
        function_sizes::new_index(d, additions, coff_table::record_starts(d, 0)[p]) == new_place(
            d,
            additions,
            p,
        ),
        coff_table::aux_count(r, new_place(d, additions, p)) == (if function_sizes::added(
            additions,
            coff_table::record_starts(d, 0)[p],
        ) is Some {
            1nat
        } else {
            coff_table::aux_count(d, coff_table::record_starts(d, 0)[p])
        }),
        ({
            let next = new_place(d, additions, p) + 1 + coff_table::aux_count(
                r,
                new_place(d, additions, p),
            );
            &&& coff_table::record_at(r, next) <= r.len()
            &&& next == (if p + 1 < coff_table::record_starts(d, 0).len() {
                new_place(d, additions, p + 1)
            } else {
                coff_table::table_count(r)
            })
        }),
{
    let r = sizes::lemma_inserted(d, additions);
    let starts = coff_table::record_starts(d, 0);
    let start = coff_table::table_start(d);
    let table = function_sizes::new_table(d, additions);
    let i = starts[p];
    let here = function_sizes::expanded(d, additions, i);
    sizes::lemma_records(d, additions, 0);
    assert(sizes::record_stands(d, additions, i));
    assert forall|x: int| 8 <= x < 12 implies #[trigger] r[x] == d[x] by {
        assert(!sizes::in_sites(function_sizes::all_sites(d), x));
        sizes::law_bytes_before_table_stay(d, additions, x);
    }
    assert(r[8] == d[8] && r[9] == d[9] && r[10] == d[10] && r[11] == d[11]);
    sizes::lemma_expanded_len(d, additions, p);
    sizes::lemma_expanded_at(d, additions, starts, p);
    sizes::lemma_expanded_len(d, additions, starts.len() as int);
    assert(starts.take(starts.len() as int) =~= starts);
    if p > 0 {
        assert(sizes::follows(d, starts, p));
    }
    let place = new_place(d, additions, p);
    let from = function_sizes::expanded_all(d, additions, starts.take(p)).len();
    assert(from == 18 * place);
    assert(here.len() >= 18);
    sizes::law_symbols_move_by_insertions(d, additions, p);
    sizes::law_records_stay(d, additions, p);
    let new = start + 18 * place;
    assert(coff_table::record_at(r, place) == new);
    let old = coff_table::record_at(d, i);
    let aux = coff_table::aux_count(d, i);
    match function_sizes::added(additions, i) {
        None => {
            let n = 18 * (1 + aux);
            sizes::lemma_new_record_in_file(d, additions, p);
            assert(r.subrange(new, new + n)[17] == d.subrange(old, old + n)[17]);
            assert(here.len() == n);
        },
        Some(_) => {
            assert(here.len() == 36);
        },
    }
    assert(starts.take(p + 1).drop_last() =~= starts.take(p));
    assert(starts.take(p + 1).last() == i);
    if p + 1 < starts.len() {
        assert(sizes::follows(d, starts, p + 1));
    } else {
        assert(starts.take(p + 1) =~= starts);
    }
    r
}

/// New places rise.
proof fn lemma_places_rise(d: Seq<u8>, additions: Map<usize, u32>, p: int, q: int)
    requires
        was_sized(d, additions),
        0 <= p < q < coff_table::record_starts(d, 0).len(),
    ensures
        new_place(d, additions, p) < new_place(d, additions, q),
    decreases q - p,
{
    let r = lemma_sized(d, additions, q - 1);
    if p < q - 1 {
        lemma_places_rise(d, additions, p, q - 1);
    }
}

/// A symbol at its new place is a symbol of the file after.
proof fn lemma_places_start(d: Seq<u8>, additions: Map<usize, u32>, p: int, q: int)
    requires
        was_sized(d, additions),
        0 <= p <= q < coff_table::record_starts(d, 0).len(),
    ensures
        coff_table::record_starts(
            function_sizes::inserted(d, additions)->Ok_0,
            new_place(d, additions, p),
        ).contains(new_place(d, additions, q)),
    decreases q - p,
{
    let r = lemma_sized(d, additions, p);
    let place = new_place(d, additions, p);
    let next = place + 1 + coff_table::aux_count(r, place);
    let rest = coff_table::record_starts(r, next);
    let all = coff_table::record_starts(r, place);
    assert(all == seq![place] + rest);
    if p == q {
        assert(all[0] == place);
    } else {
        lemma_places_start(d, additions, p + 1, q);
        let m = choose|m: int| 0 <= m < rest.len() && rest[m] == new_place(d, additions, q);
        assert(all[m + 1] == rest[m]);
    }
}

/// Whether the sizes for the file after are those for the file before, at the new places.
spec fn moves_with(
    d: Seq<u8>,
    additions: Map<usize, u32>,
    again: Map<usize, u32>,
) -> bool {
    forall|p: int|
        0 <= p < coff_table::record_starts(d, 0).len() ==> (function_sizes::added(
            again,
            #[trigger] new_place(d, additions, p),
        ) is Some <==> function_sizes::added(additions, coff_table::record_starts(d, 0)[p]) is Some)
}

/// A record stands in the file where those behind it do.
proof fn lemma_record_in_file(d: Seq<u8>, additions: Map<usize, u32>, from: int)
    requires
        coff_table::record_at(d, from + 1 + coff_table::aux_count(d, from)) <= d.len(),
        function_sizes::added(additions, from) is Some ==> coff_table::aux_count(d, from) != 0,
        function_sizes::records_in_file(
            d,
            additions,
            from + 1 + coff_table::aux_count(d, from),
        ),
    ensures
        function_sizes::records_in_file(d, additions, from),
{
}

/// The records of the file after stand in it, up to the first that has its size already.
proof fn lemma_again_in_file(
    d: Seq<u8>,
    additions: Map<usize, u32>,
    again: Map<usize, u32>,
    p: int,
)
    requires
        was_sized(d, additions),
        moves_with(d, additions, again),
        0 <= p < coff_table::record_starts(d, 0).len(),
    ensures
        function_sizes::records_in_file(
            function_sizes::inserted(d, additions)->Ok_0,
            again,
            new_place(d, additions, p),
        ),
    decreases coff_table::record_starts(d, 0).len() - p,
{
    let r = lemma_sized(d, additions, p);
    let place = new_place(d, additions, p);
    assert(function_sizes::added(again, place) is Some <==> function_sizes::added(
        additions,
        coff_table::record_starts(d, 0)[p],
    ) is Some);
    let next = place + 1 + coff_table::aux_count(r, place);
    if p + 1 < coff_table::record_starts(d, 0).len() {
        lemma_again_in_file(d, additions, again, p + 1);
    } else {
        assert(next >= coff_table::table_count(r));
    }
    assert(function_sizes::records_in_file(r, again, next));
    lemma_record_in_file(r, again, place);
}

/// The place of an index among the symbols of a file.
proof fn lemma_is_start(d: Seq<u8>, i: int) -> (p: int)
    requires
        coff_table::record_starts(d, 0).contains(i),
    ensures
        0 <= p < coff_table::record_starts(d, 0).len(),
        coff_table::record_starts(d, 0)[p] == i,
{
    choose|p: int|
        0 <= p < coff_table::record_starts(d, 0).len() && coff_table::record_starts(d, 0)[p] == i
}

proof fn lemma_additions_move(
    d: Seq<u8>,
    syms: Seq<SymbolModel>,
    names: Seq<FileSymbol>,
    moved: Seq<FileSymbol>,
)
    requires
        was_sized(d, function_sizes::all_additions(syms, names)),
        forall|k: int|
            0 <= k < names.len() ==> coff_table::record_starts(d, 0).contains(
                (#[trigger] names[k]).0 as int,
            ),
        moved.len() == names.len(),
        forall|k: int|
            0 <= k < names.len() ==> #[trigger] moved[k] == (
                function_sizes::new_index(
                    d,
                    function_sizes::all_additions(syms, names),
                    names[k].0 as int,
                ) as usize,
                names[k].1,
            ),
    ensures
        moves_with(
            d,
            function_sizes::all_additions(syms, names),
            function_sizes::all_additions(syms, moved),
        ),
{
    let additions = function_sizes::all_additions(syms, names);
    let again = function_sizes::all_additions(syms, moved);
    let known = function_sizes::function_sizes(syms, syms.len() as int);
    let starts = coff_table::record_starts(d, 0);
    let n = names.len() as int;
    assert forall|p: int| 0 <= p < starts.len() implies (function_sizes::added(
        again,
        #[trigger] new_place(d, additions, p),
    ) is Some <==> function_sizes::added(additions, starts[p]) is Some) by {
        let r = lemma_sized(d, additions, p);
        let place = new_place(d, additions, p);
        if function_sizes::added(again, place) is Some {
            sizes::lemma_size_additions(moved, known, n, place as usize);
            let k = choose|k: int|
                0 <= k < n && (#[trigger] moved[k]).0 == place as usize && moved[k].1 is Some
                    && known.contains_key(moved[k].1->0);
            let q = lemma_is_start(d, names[k].0 as int);
            let other = lemma_sized(d, additions, q);
            if p < q {
                lemma_places_rise(d, additions, p, q);
            } else if q < p {
                lemma_places_rise(d, additions, q, p);
            }
            assert(names[k].0 == starts[p]);
            sizes::lemma_size_additions(names, known, n, names[k].0);
        }
        if function_sizes::added(additions, starts[p]) is Some {
            sizes::lemma_size_additions(names, known, n, starts[p] as usize);
            let k = choose|k: int|
                0 <= k < n && (#[trigger] names[k]).0 == starts[p] as usize && names[k].1 is Some
                    && known.contains_key(names[k].1->0);
            assert(moved[k].0 == place as usize);
            sizes::lemma_size_additions(moved, known, n, place as usize);
        }
    }
}

/// Sizes are never added twice. A file that needs none stays, also when it is asked again. One that
/// got some differs, and with the same names at the indices to which they moved it is refused, since
/// a function then has an auxiliary record. The names are at symbols of the table; left out are
/// tables that outgrow their count, and files in which a relocation covers the place where the
/// header tells of the table.
pub proof fn law_sizes_are_added_once(
    d: Seq<u8>,
    syms: Seq<SymbolModel>,
    names: Seq<FileSymbol>,
    moved: Seq<FileSymbol>,
)
    requires
        function_sizes::sizes_fit(d, syms, names),
        function_sizes::with_sizes(d, syms, names) is Ok,
        forall|k: int|
            0 <= k < names.len() ==> coff_table::record_starts(d, 0).contains(
                (#[trigger] names[k]).0 as int,
            ),
        moved.len() == names.len(),
        forall|k: int|
            0 <= k < names.len() ==> #[trigger] moved[k] == (
                function_sizes::new_index(
                    d,
                    function_sizes::all_additions(syms, names),
                    names[k].0 as int,
                ) as usize,
                names[k].1,
            ),
        function_sizes::new_table(d, function_sizes::all_additions(syms, names)).len() / 18
            <= u32::MAX,
        forall|x: int| 8 <= x < 12 ==> !#[trigger] sizes::in_sites(function_sizes::all_sites(d), x),
    ensures
        ({
            let out = function_sizes::with_sizes(d, syms, names)->Ok_0;
            if out == d {
                function_sizes::with_sizes(out, syms, names) == Ok::<Seq<u8>, ErrorModel>(out)
            } else {
                &&& function_sizes::sizes_fit(out, syms, moved)
                &&& function_sizes::with_sizes(out, syms, moved) == Err::<Seq<u8>, ErrorModel>(
                    ErrorModel::UnexpectedAuxRecord,
                )
            }
        }),
        function_sizes::with_sizes(d, syms, names)->Ok_0 == d
            <==> function_sizes::all_additions(syms, names).is_empty(),
{
    let additions = function_sizes::all_additions(syms, names);
    let known = function_sizes::function_sizes(syms, syms.len() as int);
    let starts = coff_table::record_starts(d, 0);
    if !additions.is_empty() {
        let again = function_sizes::all_additions(syms, moved);
        let out = function_sizes::inserted(d, additions)->Ok_0;
        assert(was_sized(d, additions));
        let index = choose|index: usize| additions.contains_key(index);
        assert(additions.contains_key(index)) by {
            if forall|index: usize| !additions.contains_key(index) {
                assert(additions =~= Map::empty());
            }
        }
        sizes::lemma_size_additions(names, known, names.len() as int, index);
        let k = choose|k: int|
            0 <= k < names.len() && (#[trigger] names[k]).0 == index && names[k].1 is Some
                && known.contains_key(names[k].1->0);
        let p = lemma_is_start(d, names[k].0 as int);
        assert(function_sizes::added(additions, starts[p]) is Some);
        let first = lemma_sized(d, additions, 0);
        let r = lemma_sized(d, additions, p);
        let place = new_place(d, additions, p);
        lemma_additions_move(d, syms, names, moved);
        assert(function_sizes::added(again, place) is Some);
        lemma_places_start(d, additions, 0, p);
        lemma_again_in_file(d, additions, again, 0);
        let after = coff_table::record_starts(out, 0);
        let q = choose|q: int| 0 <= q < after.len() && after[q] == place;
        assert(function_sizes::added(again, after[q]) is Some && coff_table::aux_count(
            out,
            after[q],
        ) != 0);
        assert(function_sizes::conflicts(out, again, after));
        assert(again.contains_key(place as usize));
        assert(!again.is_empty());
        assert(out.len() > d.len()) by {
            let whole = sizes::lemma_inserted(d, additions);
            sizes::lemma_expanded_len(d, additions, starts.len() as int);
            assert(starts.take(starts.len() as int) =~= starts);
            sizes::lemma_records(d, additions, 0);
            assert(sizes::record_stands(d, additions, starts[p]));
            lemma_records_reach(d, 0);
            lemma_among_some(additions, starts, p);
        }
    }
}

proof fn lemma_among_some(additions: Map<usize, u32>, starts: Seq<int>, p: int)
    requires
        0 <= p < starts.len(),
        function_sizes::added(additions, starts[p]) is Some,
    ensures
        sizes::additions_among(additions, starts) > 0,
    decreases starts.len(),
{
    if p < starts.len() - 1 {
        lemma_among_some(additions, starts.drop_last(), p);
    }
}

} // verus!

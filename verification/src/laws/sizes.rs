//! Laws of the size records of functions.
use crate::coff_table;
use crate::error::ErrorModel;
use crate::function_sizes;
use crate::function_sizes::FileSymbol;
use crate::obj::SymbolModel;
use vstd::prelude::*;

verus! {

/// How many of the symbols at `starts` get a size record.
pub open spec fn additions_among(additions: Map<usize, u32>, starts: Seq<int>) -> nat
    decreases starts.len(),
{
    if starts.len() == 0 {
        0
    } else if function_sizes::added(additions, starts.last()) is Some {
        additions_among(additions, starts.drop_last()) + 1
    } else {
        additions_among(additions, starts.drop_last())
    }
}

/// Whether the places where relocations name their symbols overlap neither each other nor the file
/// header.
pub open spec fn sites_apart(d: Seq<u8>) -> bool {
    let sites = function_sizes::all_sites(d);
    &&& forall|k: int|
        0 <= k < sites.len() ==> #[trigger] sites[k] >= coff_table::FILE_HEADER_SIZE
    &&& forall|j: int, k: int|
        #![trigger sites[j], sites[k]]
        0 <= j < sites.len() && 0 <= k < sites.len() && j != k ==> sites[j] + 4 <= sites[k]
            || sites[k] + 4 <= sites[j]
}

/// What holds of record `i` if it stands in the file.
pub open spec fn record_stands(d: Seq<u8>, additions: Map<usize, u32>, i: int) -> bool {
    &&& 0 <= i < coff_table::table_count(d)
    &&& coff_table::record_at(d, i + 1) <= d.len()
    &&& function_sizes::added(additions, i) is Some ==> coff_table::aux_count(d, i) == 0
    &&& coff_table::record_at(d, i + 1 + coff_table::aux_count(d, i)) <= d.len()
}

/// Whether record `p` of `starts` comes behind the auxiliary records of the one before.
pub open spec fn follows(d: Seq<u8>, starts: Seq<int>, p: int) -> bool {
    starts[p] == starts[p - 1] + 1 + coff_table::aux_count(d, starts[p - 1])
}

pub proof fn lemma_records(d: Seq<u8>, additions: Map<usize, u32>, from: int)
    requires
        0 <= from,
        function_sizes::records_in_file(d, additions, from),
        !function_sizes::conflicts(d, additions, coff_table::record_starts(d, from)),
    ensures
        forall|p: int|
            0 <= p < coff_table::record_starts(d, from).len() ==> record_stands(
                d,
                additions,
                #[trigger] coff_table::record_starts(d, from)[p],
            ) && coff_table::record_starts(d, from)[p] >= from,
        coff_table::record_starts(d, from).len() > 0 ==> coff_table::record_starts(d, from)[0]
            == from,
        forall|p: int|
            0 < p < coff_table::record_starts(d, from).len() ==> #[trigger] follows(
                d,
                coff_table::record_starts(d, from),
                p,
            ),
    decreases
            (if from < coff_table::table_count(d) {
                coff_table::table_count(d) - from
            } else {
                0
            }),
{
    if from < coff_table::table_count(d) {
        let starts = coff_table::record_starts(d, from);
        let next = from + 1 + coff_table::aux_count(d, from);
        let rest = coff_table::record_starts(d, next);
        assert(starts == seq![from] + rest);
        assert(starts[0] == from);
        assert forall|p: int| 0 <= p < rest.len() implies #[trigger] rest[p] == starts[p + 1] by {}
        assert(!function_sizes::conflicts(d, additions, rest)) by {
            if function_sizes::conflicts(d, additions, rest) {
                let p = choose|p: int|
                    0 <= p < rest.len() && function_sizes::added(additions, #[trigger] rest[p]) is Some
                        && coff_table::aux_count(d, rest[p]) != 0;
                assert(starts[p + 1] == rest[p]);
            }
        }
        if function_sizes::added(additions, from) is Some {
            assert(coff_table::aux_count(d, starts[0]) == 0);
        }
        lemma_records(d, additions, next);
        assert forall|p: int| 0 <= p < starts.len() implies record_stands(
            d,
            additions,
            #[trigger] starts[p],
        ) && starts[p] >= from by {
            if p > 0 {
                assert(starts[p] == rest[p - 1]);
            }
        }
        assert forall|p: int| 0 < p < starts.len() implies #[trigger] follows(d, starts, p) by {
            assert(starts[p] == rest[p - 1]);
            if p > 1 {
                assert(starts[p - 1] == rest[p - 2]);
                assert(follows(d, rest, p - 1));
            }
        }
    }
}

/// How many bytes the first `p` symbols expand to.
pub proof fn lemma_expanded_len(d: Seq<u8>, additions: Map<usize, u32>, p: int)
    requires
        function_sizes::records_in_file(d, additions, 0),
        !function_sizes::conflicts(d, additions, coff_table::record_starts(d, 0)),
        0 <= p <= coff_table::record_starts(d, 0).len(),
    ensures
        ({
            let starts = coff_table::record_starts(d, 0);
            let end = if p == 0 {
                0
            } else {
                starts[p - 1] + 1 + coff_table::aux_count(d, starts[p - 1])
            };
            function_sizes::expanded_all(d, additions, starts.take(p)).len() == 18 * (end
                + additions_among(additions, starts.take(p)))
        }),
    decreases p,
{
    let starts = coff_table::record_starts(d, 0);
    lemma_records(d, additions, 0);
    if p > 0 {
        lemma_expanded_len(d, additions, p - 1);
        let i = starts[p - 1];
        if p > 1 {
            assert(follows(d, starts, p - 1));
        }
        assert(starts.take(p).drop_last() =~= starts.take(p - 1));
        assert(starts.take(p).last() == i);
        assert(record_stands(d, additions, i));
        assert(function_sizes::expanded(d, additions, i).len() == 18 * (1 + coff_table::aux_count(d, i)
            + (if function_sizes::added(additions, i) is Some {
            1int
        } else {
            0
        })));
    }
}

/// A symbol moves back by one record for each size record that comes before it.
pub proof fn law_symbols_move_by_insertions(d: Seq<u8>, additions: Map<usize, u32>, p: int)
    requires
        function_sizes::insertable(d, additions),
        function_sizes::inserted(d, additions) is Ok,
        0 <= p < coff_table::record_starts(d, 0).len(),
        coff_table::record_starts(d, 0)[p] + additions_among(
            additions,
            coff_table::record_starts(d, 0).take(p),
        ) <= u32::MAX,
    ensures
        function_sizes::new_index(d, additions, coff_table::record_starts(d, 0)[p])
            == coff_table::record_starts(d, 0)[p] + additions_among(
            additions,
            coff_table::record_starts(d, 0).take(p),
        ),
{
    let starts = coff_table::record_starts(d, 0);
    lemma_records(d, additions, 0);
    lemma_starts_rise(d, additions);
    lemma_expanded_len(d, additions, p);
    if p > 0 {
        assert(follows(d, starts, p));
    }
    let q = starts.index_of(starts[p]);
    assert(starts.contains(starts[p]));
    assert(q == p);
}

proof fn lemma_starts_rise(d: Seq<u8>, additions: Map<usize, u32>)
    requires
        function_sizes::records_in_file(d, additions, 0),
        !function_sizes::conflicts(d, additions, coff_table::record_starts(d, 0)),
    ensures
        forall|p: int, q: int|
            0 <= p < q < coff_table::record_starts(d, 0).len() ==> #[trigger] coff_table::record_starts(
                d,
                0,
            )[p] < #[trigger] coff_table::record_starts(d, 0)[q],
{
    let starts = coff_table::record_starts(d, 0);
    assert forall|p: int, q: int| 0 <= p < q < starts.len() implies #[trigger] starts[p]
        < #[trigger] starts[q] by {
        lemma_start_below(d, additions, p, q);
    }
}

proof fn lemma_start_below(d: Seq<u8>, additions: Map<usize, u32>, p: int, q: int)
    requires
        function_sizes::records_in_file(d, additions, 0),
        !function_sizes::conflicts(d, additions, coff_table::record_starts(d, 0)),
        0 <= p < q < coff_table::record_starts(d, 0).len(),
    ensures
        coff_table::record_starts(d, 0)[p] < coff_table::record_starts(d, 0)[q],
    decreases q - p,
{
    lemma_records(d, additions, 0);
    assert(follows(d, coff_table::record_starts(d, 0), q));
    if p < q - 1 {
        lemma_start_below(d, additions, p, q - 1);
    }
}

/// Whether the place at `o` lies before the symbol table, and names a record of it.
pub open spec fn is_valid_site(d: Seq<u8>, o: int) -> bool {
    &&& 0 <= o
    &&& o + 4 <= coff_table::table_start(d)
    &&& coff_table::le32(d, o) < coff_table::table_count(d)
}

proof fn lemma_sites_valid(d: Seq<u8>, sites: Seq<int>)
    requires
        function_sizes::sites_in_file(d, sites),
        function_sizes::first_invalid(d, sites) is None,
        forall|k: int| 0 <= k < sites.len() ==> #[trigger] sites[k] >= 0,
    ensures
        forall|k: int| 0 <= k < sites.len() ==> is_valid_site(d, #[trigger] sites[k]),
    decreases sites.len(),
{
    if sites.len() > 0 {
        let rest = sites.drop_last();
        lemma_sites_valid(d, rest);
        assert forall|k: int| 0 <= k < sites.len() implies is_valid_site(d, #[trigger] sites[k]) by {
            if k < rest.len() {
                assert(rest[k] == sites[k]);
            }
        }
    }
}

proof fn lemma_relocation_sites_valid(d: Seq<u8>, n: int)
    requires
        function_sizes::sections_in_file(d, n),
        function_sizes::first_invalid(d, coff_table::relocation_sites(d, n)) is None,
    ensures
        forall|k: int|
            0 <= k < coff_table::relocation_sites(d, n).len() ==> is_valid_site(
                d,
                #[trigger] coff_table::relocation_sites(d, n)[k],
            ),
    decreases n,
{
    if n > 0 {
        let before = coff_table::relocation_sites(d, n - 1);
        let here = coff_table::section_sites(d, n - 1);
        let all = coff_table::relocation_sites(d, n);
        function_sizes::lemma_first_invalid_concat(d, before, here);
        lemma_relocation_sites_valid(d, n - 1);
        lemma_sites_valid(d, here);
        assert forall|k: int| 0 <= k < all.len() implies is_valid_site(d, #[trigger] all[k]) by {
            if k < before.len() {
                assert(all[k] == before[k]);
            } else {
                assert(all[k] == here[k - before.len()]);
            }
        }
    }
}

proof fn lemma_overwritten(d: Seq<u8>, o: int, v: u32)
    requires
        0 <= o,
        o + 4 <= d.len(),
    ensures
        coff_table::overwritten(d, o, coff_table::le_bytes(v)).len() == d.len(),
        coff_table::le32(coff_table::overwritten(d, o, coff_table::le_bytes(v)), o) == v,
        forall|x: int|
            0 <= x < d.len() && !(o <= x < o + 4) ==> #[trigger] coff_table::overwritten(
                d,
                o,
                coff_table::le_bytes(v),
            )[x] == d[x],
{
    let bytes = coff_table::le_bytes(v);
    let after = coff_table::overwritten(d, o, bytes);
    coff_table::lemma_le_bytes(v);
    assert(after[o] == bytes[0]);
    assert(after[o + 1] == bytes[1]);
    assert(after[o + 2] == bytes[2]);
    assert(after[o + 3] == bytes[3]);
}

/// Whether `x` is one of the four bytes at one of the sites.
pub open spec fn in_sites(sites: Seq<int>, x: int) -> bool {
    exists|k: int| 0 <= k < sites.len() && (#[trigger] sites[k]) <= x < sites[k] + 4
}

proof fn lemma_patched(base: Seq<u8>, d: Seq<u8>, additions: Map<usize, u32>, sites: Seq<int>)
    requires
        forall|k: int|
            0 <= k < sites.len() ==> 0 <= (#[trigger] sites[k]) && sites[k] + 4 <= base.len(),
    ensures
        function_sizes::patched(base, d, additions, sites).len() == base.len(),
        forall|x: int|
            0 <= x < base.len() && !in_sites(sites, x) ==> #[trigger] function_sizes::patched(
                base,
                d,
                additions,
                sites,
            )[x] == base[x],
    decreases sites.len(),
{
    if sites.len() > 0 {
        let rest = sites.drop_last();
        assert forall|k: int| 0 <= k < rest.len() implies 0 <= (#[trigger] rest[k]) && rest[k] + 4
            <= base.len() by {
            assert(rest[k] == sites[k]);
        }
        lemma_patched(base, d, additions, rest);
        let before = function_sizes::patched(base, d, additions, rest);
        let after = function_sizes::patched(base, d, additions, sites);
        lemma_overwritten(
            before,
            sites.last(),
            function_sizes::new_index(d, additions, coff_table::le32(d, sites.last())),
        );
        assert forall|x: int| 0 <= x < base.len() && !in_sites(sites, x) implies #[trigger] after[x]
            == base[x] by {
            assert(!in_sites(rest, x)) by {
                if in_sites(rest, x) {
                    let k = choose|k: int|
                        0 <= k < rest.len() && (#[trigger] rest[k]) <= x < rest[k] + 4;
                    assert(sites[k] == rest[k]);
                }
            }
            assert(sites[sites.len() - 1] == sites.last());
            assert(before[x] == base[x]);
        }
    }
}

proof fn lemma_patched_site(
    base: Seq<u8>,
    d: Seq<u8>,
    additions: Map<usize, u32>,
    sites: Seq<int>,
    k: int,
)
    requires
        0 <= k < sites.len(),
        forall|j: int|
            0 <= j < sites.len() ==> 0 <= (#[trigger] sites[j]) && sites[j] + 4 <= base.len(),
        forall|j: int|
            0 <= j < sites.len() && j != k ==> (#[trigger] sites[j]) + 4 <= sites[k] || sites[k] + 4
                <= sites[j],
    ensures
        coff_table::le32(function_sizes::patched(base, d, additions, sites), sites[k])
            == function_sizes::new_index(d, additions, coff_table::le32(d, sites[k])),
    decreases sites.len(),
{
    let rest = sites.drop_last();
    assert forall|j: int| 0 <= j < rest.len() implies 0 <= (#[trigger] rest[j]) && rest[j] + 4
        <= base.len() by {
        assert(rest[j] == sites[j]);
    }
    lemma_patched(base, d, additions, rest);
    let before = function_sizes::patched(base, d, additions, rest);
    let last = sites.len() - 1;
    lemma_overwritten(
        before,
        sites.last(),
        function_sizes::new_index(d, additions, coff_table::le32(d, sites.last())),
    );
    if k < last {
        assert forall|j: int| 0 <= j < rest.len() && j != k implies (#[trigger] rest[j]) + 4
            <= rest[k] || rest[k] + 4 <= rest[j] by {
            assert(rest[j] == sites[j]);
        }
        lemma_patched_site(base, d, additions, rest, k);
        assert(sites[last] == sites.last());
        let o = sites[k];
        let after = function_sizes::patched(base, d, additions, sites);
        assert(after[o] == before[o]);
        assert(after[o + 1] == before[o + 1]);
        assert(after[o + 2] == before[o + 2]);
        assert(after[o + 3] == before[o + 3]);
    }
}

/// The file before the symbol table, with the new indices but without the new count.
pub open spec fn reindexed(d: Seq<u8>, additions: Map<usize, u32>) -> Seq<u8> {
    function_sizes::patched(
        d.take(coff_table::table_start(d)),
        d,
        additions,
        function_sizes::all_sites(d),
    )
}

pub proof fn lemma_inserted(d: Seq<u8>, additions: Map<usize, u32>) -> (r: Seq<u8>)
    requires
        function_sizes::insertable(d, additions),
        function_sizes::inserted(d, additions) is Ok,
    ensures
        function_sizes::inserted(d, additions) == Ok::<Seq<u8>, ErrorModel>(r),
        16 <= coff_table::table_start(d) <= d.len(),
        coff_table::record_at(d, coff_table::table_count(d)) <= d.len(),
        reindexed(d, additions).len() == coff_table::table_start(d),
        r.len() == coff_table::table_start(d) + function_sizes::new_table(d, additions).len()
            + d.len() - coff_table::record_at(d, coff_table::table_count(d)),
        r.skip(coff_table::table_start(d) + function_sizes::new_table(d, additions).len())
            == d.skip(coff_table::record_at(d, coff_table::table_count(d))),
        r.subrange(
            coff_table::table_start(d),
            coff_table::table_start(d) + function_sizes::new_table(d, additions).len(),
        ) == function_sizes::new_table(d, additions),
        coff_table::le32(r, 12) == (function_sizes::new_table(d, additions).len() / 18) as u32,
        forall|x: int|
            0 <= x < coff_table::table_start(d) && !(12 <= x < 16) ==> #[trigger] r[x]
                == reindexed(d, additions)[x],
        forall|k: int|
            0 <= k < function_sizes::all_sites(d).len() ==> is_valid_site(
                d,
                #[trigger] function_sizes::all_sites(d)[k],
            ),
{
    let start = coff_table::table_start(d);
    let table = function_sizes::new_table(d, additions);
    let sites = function_sizes::all_sites(d);
    let before = reindexed(d, additions);
    lemma_relocation_sites_valid(d, coff_table::section_count(d));
    lemma_patched(d.take(start), d, additions, sites);
    lemma_overwritten(before, 12, (table.len() / 18) as u32);
    let r = function_sizes::inserted(d, additions)->Ok_0;
    let front = coff_table::overwritten(
        before,
        12,
        coff_table::le_bytes((table.len() / 18) as u32),
    );
    let rest = d.skip(coff_table::record_at(d, coff_table::table_count(d)));
    assert(r == front + table + rest);
    assert(r.skip(start + table.len()) =~= rest);
    assert(r.subrange(start, start + table.len()) =~= table);
    assert(r[12] == front[12] && r[13] == front[13] && r[14] == front[14] && r[15] == front[15]);
    r
}

/// Size records change nothing before the symbol table but the record count and the symbol indices
/// of relocations. So the contents of sections stay.
pub proof fn law_bytes_before_table_stay(d: Seq<u8>, additions: Map<usize, u32>, x: int)
    requires
        function_sizes::insertable(d, additions),
        function_sizes::inserted(d, additions) is Ok,
        0 <= x < coff_table::table_start(d),
        !(12 <= x < 16),
        !in_sites(function_sizes::all_sites(d), x),
    ensures
        function_sizes::inserted(d, additions)->Ok_0[x] == d[x],
{
    let r = lemma_inserted(d, additions);
    let start = coff_table::table_start(d);
    lemma_patched(d.take(start), d, additions, function_sizes::all_sites(d));
    assert(d.take(start)[x] == d[x]);
}

/// Size records leave what follows the symbol table as it is, and the header counts them.
pub proof fn law_rest_of_file_stays(d: Seq<u8>, additions: Map<usize, u32>)
    requires
        function_sizes::insertable(d, additions),
        function_sizes::inserted(d, additions) is Ok,
    ensures
        ({
            let r = function_sizes::inserted(d, additions)->Ok_0;
            let table = function_sizes::new_table(d, additions);
            &&& r.skip(coff_table::table_start(d) + table.len()) == d.skip(
                coff_table::record_at(d, coff_table::table_count(d)),
            )
            &&& table.len() / 18 <= u32::MAX ==> coff_table::table_count(r) == table.len() / 18
        }),
{
    let r = lemma_inserted(d, additions);
}

/// Each relocation names the new index of the symbol that it named, and the symbol table starts
/// where it did.
pub proof fn law_relocations_keep_their_symbols(d: Seq<u8>, additions: Map<usize, u32>, k: int)
    requires
        function_sizes::insertable(d, additions),
        function_sizes::inserted(d, additions) is Ok,
        sites_apart(d),
        0 <= k < function_sizes::all_sites(d).len(),
    ensures
        ({
            let r = function_sizes::inserted(d, additions)->Ok_0;
            let site = function_sizes::all_sites(d)[k];
            &&& coff_table::le32(r, site) == function_sizes::new_index(
                d,
                additions,
                coff_table::le32(d, site),
            )
            &&& coff_table::table_start(r) == coff_table::table_start(d)
        }),
{
    let r = lemma_inserted(d, additions);
    let start = coff_table::table_start(d);
    let sites = function_sizes::all_sites(d);
    let before = reindexed(d, additions);
    let o = sites[k];
    assert(is_valid_site(d, o));
    lemma_patched_site(d.take(start), d, additions, sites, k);
    assert(r[o] == before[o] && r[o + 1] == before[o + 1] && r[o + 2] == before[o + 2] && r[o + 3]
        == before[o + 3]);
    assert forall|x: int| 8 <= x < 12 implies #[trigger] r[x] == d[x] by {
        assert(!in_sites(sites, x));
        law_bytes_before_table_stay(d, additions, x);
    }
    assert(r[8] == d[8] && r[9] == d[9] && r[10] == d[10] && r[11] == d[11]);
}

/// The bytes of one symbol among those of all.
pub proof fn lemma_expanded_at(d: Seq<u8>, additions: Map<usize, u32>, starts: Seq<int>, p: int)
    requires
        0 <= p < starts.len(),
    ensures
        ({
            let all = function_sizes::expanded_all(d, additions, starts);
            let from = function_sizes::expanded_all(d, additions, starts.take(p)).len();
            let here = function_sizes::expanded(d, additions, starts[p]);
            &&& from + here.len() <= all.len()
            &&& all.subrange(from as int, (from + here.len()) as int) == here
        }),
    decreases starts.len(),
{
    let all = function_sizes::expanded_all(d, additions, starts);
    let from = function_sizes::expanded_all(d, additions, starts.take(p)).len();
    let here = function_sizes::expanded(d, additions, starts[p]);
    let rest = starts.drop_last();
    if p < starts.len() - 1 {
        lemma_expanded_at(d, additions, rest, p);
        assert(rest.take(p) =~= starts.take(p));
        assert(all.subrange(from as int, (from + here.len()) as int)
            =~= function_sizes::expanded_all(d, additions, rest).subrange(
            from as int,
            (from + here.len()) as int,
        ));
    } else {
        assert(starts.take(p) =~= rest);
        assert(all.subrange(from as int, (from + here.len()) as int) =~= here);
    }
}

/// At its new index stands what a symbol expands to.
pub proof fn lemma_new_record(d: Seq<u8>, additions: Map<usize, u32>, p: int)
    requires
        function_sizes::insertable(d, additions),
        function_sizes::inserted(d, additions) is Ok,
        0 <= p < coff_table::record_starts(d, 0).len(),
        coff_table::record_starts(d, 0)[p] + additions_among(
            additions,
            coff_table::record_starts(d, 0).take(p),
        ) <= u32::MAX,
    ensures
        record_stands(d, additions, coff_table::record_starts(d, 0)[p]),
        ({
            let r = function_sizes::inserted(d, additions)->Ok_0;
            let i = coff_table::record_starts(d, 0)[p];
            let new = coff_table::table_start(d) + 18 * function_sizes::new_index(d, additions, i);
            let here = function_sizes::expanded(d, additions, i);
            new + here.len() <= r.len() && r.subrange(new, new + here.len()) == here
        }),
{
    let r = lemma_inserted(d, additions);
    let starts = coff_table::record_starts(d, 0);
    let start = coff_table::table_start(d);
    let table = function_sizes::new_table(d, additions);
    let i = starts[p];
    let from = function_sizes::expanded_all(d, additions, starts.take(p)).len() as int;
    let here = function_sizes::expanded(d, additions, i);
    lemma_records(d, additions, 0);
    assert(record_stands(d, additions, i));
    law_symbols_move_by_insertions(d, additions, p);
    lemma_expanded_len(d, additions, p);
    if p > 0 {
        assert(follows(d, starts, p));
    }
    let new = start + 18 * function_sizes::new_index(d, additions, i);
    assert(new == start + from);
    lemma_expanded_at(d, additions, starts, p);
    let part = r.subrange(start, start + table.len());
    assert(part == table);
    assert(r.subrange(new, new + here.len()) =~= part.subrange(from, from + here.len()));
}

/// The bytes of a symbol that gets a size.
pub proof fn lemma_sized_record(d: Seq<u8>, additions: Map<usize, u32>, i: int, size: u32)
    requires
        record_stands(d, additions, i),
        function_sizes::added(additions, i) == Some(size),
        0 <= coff_table::record_at(d, i),
    ensures
        ({
            let here = function_sizes::expanded(d, additions, i);
            let old = coff_table::record_at(d, i);
            &&& here.len() == 36
            &&& here.subrange(0, 16) == d.subrange(old, old + 16)
            &&& here[16] == coff_table::CLASS_EXTERNAL
            &&& here[17] == 1
            &&& here.subrange(18, 36) == function_sizes::size_record(size)
            &&& coff_table::le32(here, 22) == size
        }),
{
    let here = function_sizes::expanded(d, additions, i);
    let old = coff_table::record_at(d, i);
    let record = function_sizes::size_record(size);
    let bytes = coff_table::le_bytes(size);
    coff_table::lemma_le_bytes(size);
    assert(here.subrange(0, 16) =~= d.subrange(old, old + 16));
    assert(here.subrange(18, 36) =~= record);
    assert(here[22] == bytes[0] && here[23] == bytes[1] && here[24] == bytes[2] && here[25]
        == bytes[3]);
}

/// At its new index stands the record that a symbol had, with its auxiliary records. One that gets
/// a size becomes an external with one auxiliary record, which holds the size and is zero
/// otherwise; the name, value, section and type stay.
pub proof fn law_records_stay(d: Seq<u8>, additions: Map<usize, u32>, p: int)
    requires
        function_sizes::insertable(d, additions),
        function_sizes::inserted(d, additions) is Ok,
        0 <= p < coff_table::record_starts(d, 0).len(),
        coff_table::record_starts(d, 0)[p] + additions_among(
            additions,
            coff_table::record_starts(d, 0).take(p),
        ) <= u32::MAX,
    ensures
        ({
            let r = function_sizes::inserted(d, additions)->Ok_0;
            let i = coff_table::record_starts(d, 0)[p];
            let old = coff_table::record_at(d, i);
            let new = coff_table::table_start(d) + 18 * function_sizes::new_index(d, additions, i);
            let n = 18 * (1 + coff_table::aux_count(d, i));
            match function_sizes::added(additions, i) {
                None => r.subrange(new, new + n) == d.subrange(old, old + n),
                Some(size) => {
                    &&& r.subrange(new, new + 16) == d.subrange(old, old + 16)
                    &&& r[new + 16] == coff_table::CLASS_EXTERNAL
                    &&& r[new + 17] == 1
                    &&& r.subrange(new + 18, new + 36) == function_sizes::size_record(size)
                    &&& coff_table::le32(r, new + 22) == size
                },
            }
        }),
{
    lemma_new_record(d, additions, p);
    let r = lemma_inserted(d, additions);
    let i = coff_table::record_starts(d, 0)[p];
    let old = coff_table::record_at(d, i);
    let new = coff_table::table_start(d) + 18 * function_sizes::new_index(d, additions, i);
    let here = function_sizes::expanded(d, additions, i);
    let got = r.subrange(new, new + here.len());
    assert(got == here);
    match function_sizes::added(additions, i) {
        None => {
            assert(here.len() == 18 * (1 + coff_table::aux_count(d, i)));
        },
        Some(size) => {
            lemma_sized_record(d, additions, i, size);
            assert(r.subrange(new, new + 16) =~= got.subrange(0, 16));
            assert(r.subrange(new + 18, new + 36) =~= got.subrange(18, 36));
            assert(got[16] == r[new + 16] && got[17] == r[new + 17]);
            assert(got[22] == r[new + 22] && got[23] == r[new + 23] && got[24] == r[new + 24]
                && got[25] == r[new + 25]);
        },
    }
}

/// A relocation that named a symbol names the same symbol: the record at the index that it names has
/// the name, value, section and type of the record that it named before.
pub proof fn law_relocations_name_same_records(
    d: Seq<u8>,
    additions: Map<usize, u32>,
    k: int,
    p: int,
)
    requires
        function_sizes::insertable(d, additions),
        function_sizes::inserted(d, additions) is Ok,
        sites_apart(d),
        0 <= k < function_sizes::all_sites(d).len(),
        0 <= p < coff_table::record_starts(d, 0).len(),
        coff_table::le32(d, function_sizes::all_sites(d)[k]) == coff_table::record_starts(d, 0)[p],
        coff_table::record_starts(d, 0)[p] + additions_among(
            additions,
            coff_table::record_starts(d, 0).take(p),
        ) <= u32::MAX,
    ensures
        ({
            let r = function_sizes::inserted(d, additions)->Ok_0;
            let site = function_sizes::all_sites(d)[k];
            let old = coff_table::record_at(d, coff_table::le32(d, site));
            let new = coff_table::record_at(r, coff_table::le32(r, site));
            r.subrange(new, new + 16) == d.subrange(old, old + 16)
        }),
{
    law_relocations_keep_their_symbols(d, additions, k);
    law_records_stay(d, additions, p);
    let r = lemma_inserted(d, additions);
    let i = coff_table::record_starts(d, 0)[p];
    lemma_records(d, additions, 0);
    assert(record_stands(d, additions, i));
    let old = coff_table::record_at(d, i);
    let new = coff_table::table_start(d) + 18 * function_sizes::new_index(d, additions, i);
    if function_sizes::added(additions, i) is None {
        let n = 18 * (1 + coff_table::aux_count(d, i));
        lemma_new_record_in_file(d, additions, p);
        assert forall|x: int| 0 <= x < 16 implies r[new + x] == #[trigger] d[old + x] by {
            assert(r.subrange(new, new + n)[x] == d.subrange(old, old + n)[x]);
        }
        assert(r.subrange(new, new + 16) =~= d.subrange(old, old + 16));
    }
}

pub proof fn lemma_new_record_in_file(d: Seq<u8>, additions: Map<usize, u32>, p: int)
    requires
        function_sizes::insertable(d, additions),
        function_sizes::inserted(d, additions) is Ok,
        0 <= p < coff_table::record_starts(d, 0).len(),
        coff_table::record_starts(d, 0)[p] + additions_among(
            additions,
            coff_table::record_starts(d, 0).take(p),
        ) <= u32::MAX,
    ensures
        ({
            let i = coff_table::record_starts(d, 0)[p];
            coff_table::table_start(d) + 18 * function_sizes::new_index(d, additions, i) + 18 * (1
                + coff_table::aux_count(d, i)) <= function_sizes::inserted(d, additions)->Ok_0.len()
        }),
{
    let r = lemma_inserted(d, additions);
    let starts = coff_table::record_starts(d, 0);
    lemma_records(d, additions, 0);
    assert(record_stands(d, additions, starts[p]));
    law_symbols_move_by_insertions(d, additions, p);
    lemma_expanded_len(d, additions, p);
    if p > 0 {
        assert(follows(d, starts, p));
    }
    lemma_expanded_at(d, additions, starts, p);
}

/// A file grows by one record for each size, where its records end with its symbol table.
pub proof fn law_file_grows_by_size_records(d: Seq<u8>, additions: Map<usize, u32>)
    requires
        function_sizes::insertable(d, additions),
        function_sizes::inserted(d, additions) is Ok,
        coff_table::record_starts(d, 0).len() > 0 ==> coff_table::record_starts(d, 0).last() + 1
            + coff_table::aux_count(d, coff_table::record_starts(d, 0).last())
            == coff_table::table_count(d),
    ensures
        function_sizes::inserted(d, additions)->Ok_0.len() == d.len() + 18 * additions_among(
            additions,
            coff_table::record_starts(d, 0),
        ),
        function_sizes::new_table(d, additions).len() == 18 * (coff_table::table_count(d)
            + additions_among(additions, coff_table::record_starts(d, 0))),
{
    let r = lemma_inserted(d, additions);
    let starts = coff_table::record_starts(d, 0);
    lemma_expanded_len(d, additions, starts.len() as int);
    assert(starts.take(starts.len() as int) =~= starts);
}

pub proof fn lemma_function_sizes(syms: Seq<SymbolModel>, n: int, name: Seq<char>)
    requires
        0 <= n <= syms.len(),
    ensures
        function_sizes::function_sizes(syms, n).contains_key(name) <==> exists|i: int|
            0 <= i < n && #[trigger] function_sizes::needs_size(syms, i) && syms[i].name == name,
        function_sizes::function_sizes(syms, n).contains_key(name) ==> exists|i: int|
            0 <= i < n && #[trigger] function_sizes::needs_size(syms, i) && syms[i].name == name
                && syms[i].size == function_sizes::function_sizes(syms, n)[name],
    decreases n,
{
    if n > 0 {
        lemma_function_sizes(syms, n - 1, name);
        if function_sizes::needs_size(syms, n - 1) && syms[n - 1].name == name {
            assert(function_sizes::function_sizes(syms, n).contains_key(name));
            assert(function_sizes::function_sizes(syms, n)[name] == syms[n - 1].size);
        } else {
            assert(function_sizes::function_sizes(syms, n).contains_key(name)
                == function_sizes::function_sizes(syms, n - 1).contains_key(name));
        }
    }
}

pub proof fn lemma_size_additions(
    names: Seq<FileSymbol>,
    sizes: Map<Seq<char>, u32>,
    n: int,
    index: usize,
)
    requires
        0 <= n <= names.len(),
    ensures
        function_sizes::size_additions(names, sizes, n).contains_key(index) <==> exists|k: int|
            0 <= k < n && (#[trigger] names[k]).0 == index && names[k].1 is Some
                && sizes.contains_key(names[k].1->0),
        function_sizes::size_additions(names, sizes, n).contains_key(index) ==> exists|k: int|
            0 <= k < n && (#[trigger] names[k]).0 == index && names[k].1 is Some
                && sizes.contains_key(names[k].1->0) && sizes[names[k].1->0]
                == function_sizes::size_additions(names, sizes, n)[index],
    decreases n,
{
    if n > 0 {
        lemma_size_additions(names, sizes, n - 1, index);
        let s = names[n - 1];
        let all = function_sizes::size_additions(names, sizes, n);
        let earlier = function_sizes::size_additions(names, sizes, n - 1);
        if s.0 == index && s.1 is Some && sizes.contains_key(s.1->0) {
            assert(all.contains_key(index) && all[index] == sizes[s.1->0]);
        } else {
            assert(all.contains_key(index) == earlier.contains_key(index));
            assert(all.contains_key(index) ==> all[index] == earlier[index]);
        }
    }
}

/// Each symbol of the file that is spelled like a function around an external label gets the size
/// of that function. Left out are tables in which an index stands twice, and spellings that
/// functions of different sizes share.
pub proof fn law_enclosing_functions_get_sizes(
    syms: Seq<SymbolModel>,
    names: Seq<FileSymbol>,
    i: int,
    k: int,
)
    requires
        0 <= i < syms.len(),
        0 <= k < names.len(),
        function_sizes::needs_size(syms, i),
        names[k].1 == Some(syms[i].name),
        forall|j: int|
            0 <= j < syms.len() && #[trigger] function_sizes::needs_size(syms, j) && syms[j].name
                == syms[i].name ==> syms[j].size == syms[i].size,
        forall|j: int|
            0 <= j < names.len() && (#[trigger] names[j]).0 == names[k].0 ==> names[j] == names[k],
    ensures
        function_sizes::all_additions(syms, names).contains_key(names[k].0),
        function_sizes::all_additions(syms, names)[names[k].0] == syms[i].size,
{
    lemma_function_sizes(syms, syms.len() as int, syms[i].name);
    lemma_size_additions(
        names,
        function_sizes::function_sizes(syms, syms.len() as int),
        names.len() as int,
        names[k].0,
    );
}

/// No symbol of the file gets a size but one that is spelled like a function around an external
/// label, and the size is that of such a function.
pub proof fn law_only_enclosing_functions_get_sizes(
    syms: Seq<SymbolModel>,
    names: Seq<FileSymbol>,
    index: usize,
)
    requires
        function_sizes::all_additions(syms, names).contains_key(index),
    ensures
        exists|k: int, i: int|
            #![trigger names[k], syms[i]]
            0 <= k < names.len() && 0 <= i < syms.len() && names[k].0 == index && names[k].1
                == Some(syms[i].name) && function_sizes::needs_size(syms, i) && syms[i].size
                == function_sizes::all_additions(syms, names)[index],
{
    let sizes = function_sizes::function_sizes(syms, syms.len() as int);
    lemma_size_additions(names, sizes, names.len() as int, index);
    let k = choose|k: int|
        0 <= k < names.len() && (#[trigger] names[k]).0 == index && names[k].1 is Some
            && sizes.contains_key(names[k].1->0) && sizes[names[k].1->0]
            == function_sizes::all_additions(syms, names)[index];
    let name = names[k].1->0;
    lemma_function_sizes(syms, syms.len() as int, name);
    let i = choose|i: int|
        0 <= i < syms.len() && #[trigger] function_sizes::needs_size(syms, i) && syms[i].name == name
            && syms[i].size == sizes[name];
    assert(names[k].0 == index && syms[i].name == name);
}

/// Where no function holds an external label, the file stays as it is.
pub proof fn law_no_label_no_change(d: Seq<u8>, syms: Seq<SymbolModel>, names: Seq<FileSymbol>)
    requires
        forall|i: int| 0 <= i < syms.len() ==> !#[trigger] function_sizes::needs_size(syms, i),
    ensures
        function_sizes::with_sizes(d, syms, names) == Ok::<Seq<u8>, ErrorModel>(d),
{
    let additions = function_sizes::all_additions(syms, names);
    assert forall|index: usize| !additions.contains_key(index) by {
        if additions.contains_key(index) {
            law_only_enclosing_functions_get_sizes(syms, names, index);
        }
    }
    assert(additions =~= Map::empty());
}

} // verus!

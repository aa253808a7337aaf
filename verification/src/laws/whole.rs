//! Laws of all contributions of an image: how many there are, and in which order they stand.
use crate::contribution;
use crate::gaps;
use crate::laws::contents;
use crate::laws::links;
use crate::laws::outcomes;
use crate::laws::padding;
use crate::laws::spelled;
use crate::obj::{ObjModel, SectionModel};
use crate::outcome;
use crate::relink;
use crate::tokens;
use crate::zero_fill;
use vstd::prelude::*;

verus! {

/// Whether gap `m` of a section holds any address.
pub open spec fn is_open(section: SectionModel, m: int) -> bool {
    outcomes::gap_start(section, m) < outcomes::gap_end(section, m)
}

/// How many of the first `n` gaps of a section hold any address.
pub open spec fn open_gaps(section: SectionModel, n: int) -> nat
    decreases n,
{
    if n <= 0 {
        0
    } else if is_open(section, n - 1) {
        open_gaps(section, n - 1) + 1
    } else {
        open_gaps(section, n - 1)
    }
}

/// How many gaps of the first `n` sections hold any address.
pub open spec fn all_open_gaps(sections: Seq<SectionModel>, n: int) -> nat
    decreases n,
{
    if n <= 0 {
        0
    } else {
        all_open_gaps(sections, n - 1) + open_gaps(
            sections[n - 1],
            sections[n - 1].splits.len() + 1int,
        )
    }
}

spec fn filled_gaps(section: SectionModel) -> Seq<Option<ObjModel>> {
    outcome::collected(gaps::gaps(section))->Ok_0
}

/// Where the padding of a gap stands among that of its section.
proof fn lemma_gap_place(section: SectionModel, n: int, m: int)
    requires
        gaps::section_paddable(section),
        gaps::section_padding(section) is Ok,
        0 <= n <= section.splits.len() + 1,
        0 <= m,
    ensures
        outcome::present(filled_gaps(section).take(n)).len() == open_gaps(section, n),
        m < n && is_open(section, m) ==> open_gaps(section, m) < open_gaps(section, n)
            && outcome::present(filled_gaps(section).take(n))[open_gaps(section, m) as int]
            == gaps::gap_object(
            section,
            outcomes::gap_start(section, m) as u32,
            outcomes::gap_end(section, m) as u32,
        ),
    decreases n,
{
    let values = filled_gaps(section);
    if n > 0 {
        lemma_gap_place(section, n - 1, m);
        assert(values.take(n).drop_last() =~= values.take(n - 1));
        assert(values.take(n).last() == values[n - 1]);
        let steps = gaps::gaps(section);
        assert(steps[n - 1] is Ok);
        assert(outcome::reached(steps, n - 1));
        assert(gaps::gap_defined(section, n - 1));
        assert(steps[n - 1] == gaps::gap(section, n - 1));
        assert(values[n - 1] == gaps::gap(section, n - 1)->Ok_0);
    } else {
        assert(values.take(n) =~= Seq::empty());
    }
}

spec fn paddings(sections: Seq<SectionModel>) -> Seq<Seq<ObjModel>> {
    outcome::collected(gaps::section_paddings(sections))->Ok_0
}

/// Where the padding of a section stands among that of all.
proof fn lemma_section_place(sections: Seq<SectionModel>, n: int, k: int, e: int)
    requires
        gaps::all_paddable(sections),
        gaps::all_padding(sections) is Ok,
        0 <= n <= sections.len(),
        0 <= k,
        k < n ==> 0 <= e < gaps::section_padding(sections[k])->Ok_0.len(),
    ensures
        outcome::concat(paddings(sections).take(n)).len() == all_open_gaps(sections, n),
        k < n ==> {
            &&& gaps::section_padding(sections[k]) is Ok
            &&& gaps::section_paddable(sections[k])
            &&& all_open_gaps(sections, k) + e < all_open_gaps(sections, n)
            &&& outcome::concat(paddings(sections).take(n))[all_open_gaps(sections, k) + e]
                == gaps::section_padding(sections[k])->Ok_0[e]
        },
    decreases n,
{
    let values = paddings(sections);
    if n > 0 {
        lemma_section_place(sections, n - 1, k, e);
        assert(values.take(n).drop_last() =~= values.take(n - 1));
        assert(values.take(n).last() == values[n - 1]);
        let steps = gaps::section_paddings(sections);
        assert(steps[n - 1] is Ok);
        assert(outcome::reached(steps, n - 1));
        let section = sections[n - 1];
        assert(gaps::section_paddable(section));
        assert(steps[n - 1] == gaps::section_padding(section));
        let count = section.splits.len() as int + 1;
        lemma_gap_place(section, count, 0);
        assert(filled_gaps(section).take(count) =~= filled_gaps(section));
    } else {
        assert(values.take(n) =~= Seq::empty());
    }
}

/// There is one contribution for each object that has sections and, behind them, one for each gap
/// that holds any address, by section and by gap. It is the padding of that gap.
pub proof fn law_each_gap_links(image: ObjModel, defaults: Seq<ObjModel>, k: int, m: int)
    requires
        relink::linkable(image, defaults),
        relink::contributions(image, defaults) is Ok,
        0 <= k < image.sections.len(),
        0 <= m <= image.sections[k].splits.len(),
        is_open(image.sections[k], m),
    ensures
        ({
            let all = relink::contributions(image, defaults)->Ok_0;
            let i = contents::rank(defaults, defaults.len() as int) + all_open_gaps(
                image.sections,
                k,
            ) + open_gaps(image.sections[k], m);
            &&& 0 <= i < all.len()
            &&& padding::is_gap_object(
                image.sections[k],
                all[i as int],
                outcomes::gap_start(image.sections[k], m),
                outcomes::gap_end(image.sections[k], m),
            )
        }),
{
    let n = image.sections.len() as int;
    let section = image.sections[k];
    law_count_of_contributions(image, defaults);
    let count = section.splits.len() as int + 1;
    let steps = gaps::section_paddings(image.sections);
    assert(steps[k] is Ok);
    assert(outcome::reached(steps, k));
    assert(gaps::section_paddable(section));
    assert(steps[k] == gaps::section_padding(section));
    lemma_gap_place(section, count, m);
    assert(filled_gaps(section).take(count) =~= filled_gaps(section));
    let e = open_gaps(section, m) as int;
    let o = gaps::section_padding(section)->Ok_0[e];
    lemma_section_place(image.sections, n, k, e);
    assert(paddings(image.sections).take(n) =~= paddings(image.sections));
    let start = outcomes::gap_start(section, m) as u32;
    let end = outcomes::gap_end(section, m) as u32;
    assert(outcome::reached(gaps::gaps(section), m)) by {
        assert(outcome::reached(gaps::gaps(section), count));
    }
    assert(gaps::gap_defined(section, m));
    assert(gaps::gaps(section)[m] is Ok);
    spelled::law_address_spelling(start);
    padding::lemma_gap_sections(section, start, end);
    assert(o.sections == gaps::gap_sections(section, start, end));
}

/// There are as many contributions as objects that have sections, and gaps that hold any address.
pub proof fn law_count_of_contributions(image: ObjModel, defaults: Seq<ObjModel>)
    requires
        relink::linkable(image, defaults),
        relink::contributions(image, defaults) is Ok,
    ensures
        relink::contributions(image, defaults)->Ok_0.len() == contents::rank(
            defaults,
            defaults.len() as int,
        ) + all_open_gaps(image.sections, image.sections.len() as int),
        gaps::all_paddable(image.sections),
        gaps::all_padding(image.sections) is Ok,
        forall|p: int|
            0 <= p < gaps::all_padding(image.sections)->Ok_0.len() ==> relink::contributions(
                image,
                defaults,
            )->Ok_0[contents::rank(defaults, defaults.len() as int) + p]
                == #[trigger] gaps::all_padding(image.sections)->Ok_0[p],
{
    let n = image.sections.len() as int;
    let chosen = relink::non_empty(defaults);
    let restored = tokens::restored(image, chosen)->Ok_0;
    let filled = zero_fill::zero_filled(image, restored, n)->Ok_0;
    let finished = contribution::finished(image, filled)->Ok_0;
    links::lemma_zero_filled_len(image, restored, n);
    contents::law_objects_with_sections_link(defaults);
    lemma_section_place(image.sections, n, n, 0);
    assert(paddings(image.sections).take(n) =~= paddings(image.sections));
}

/// Whether `a` is the address of some section of an object.
pub open spec fn stands_at(o: ObjModel, a: u32) -> bool {
    exists|j: int|
        0 <= j < o.sections.len() && (#[trigger] o.sections[j]).virtual_address == Some(a)
}

/// Whether `a` is the lowest address of the sections of an object.
pub open spec fn starts_at(o: ObjModel, a: u32) -> bool {
    &&& stands_at(o, a)
    &&& forall|b: u32| #[trigger] stands_at(o, b) ==> a <= b
}

proof fn lemma_lowest(sections: Seq<SectionModel>, o: ObjModel)
    requires
        o.sections == sections,
    ensures
        relink::lowest_address(sections) matches Some(a) ==> starts_at(o, a),
        relink::lowest_address(sections) is None ==> forall|b: u32| !#[trigger] stands_at(o, b),
    decreases sections.len(),
{
    if sections.len() > 0 {
        let rest = sections.drop_last();
        let p = ObjModel { sections: rest, ..o };
        let n = rest.len() as int;
        lemma_lowest(rest, p);
        assert forall|b: u32| #[trigger] stands_at(o, b) implies stands_at(p, b)
            || sections.last().virtual_address == Some(b) by {
            let j = choose|j: int|
                0 <= j < o.sections.len() && (#[trigger] o.sections[j]).virtual_address == Some(b);
            if j < n {
                assert(p.sections[j].virtual_address == Some(b));
            }
        }
        assert forall|b: u32| stands_at(p, b) implies #[trigger] stands_at(o, b) by {
            let j = choose|j: int|
                0 <= j < p.sections.len() && (#[trigger] p.sections[j]).virtual_address == Some(b);
            assert(o.sections[j].virtual_address == Some(b));
        }
        if let Some(b) = sections.last().virtual_address {
            assert(o.sections[n].virtual_address == Some(b));
            assert(stands_at(o, b));
        }
        if let Some(a) = relink::lowest_address(rest) {
            assert(stands_at(p, a));
            assert(stands_at(o, a));
        }
    }
}

/// Whether objects stand in this order by address: those without one first, then by their lowest.
pub open spec fn comes_no_later(x: ObjModel, y: ObjModel) -> bool {
    ||| forall|a: u32| !#[trigger] stands_at(x, a)
    ||| exists|a: u32, b: u32| #[trigger] starts_at(x, a) && #[trigger] starts_at(y, b) && a <= b
}

proof fn lemma_no_later(x: ObjModel, y: ObjModel)
    ensures
        comes_no_later(x, y) <==> relink::object_le(x, y),
{
    lemma_lowest(x.sections, x);
    lemma_lowest(y.sections, y);
    if let Some(a) = relink::lowest_address(x.sections) {
        assert(stands_at(x, a));
        assert forall|c: u32| #[trigger] starts_at(x, c) implies c == a by {}
        if let Some(b) = relink::lowest_address(y.sections) {
            assert(starts_at(y, b));
            assert forall|c: u32| #[trigger] starts_at(y, c) implies c == b by {}
        }
    }
}

/// Whether `p` holds the index `x`.
pub open spec fn is_placed(p: Seq<usize>, x: int) -> bool {
    exists|k: int| 0 <= k < p.len() && #[trigger] p[k] == x
}

/// Sorted contributions are the contributions, each once. None stands before one with a lower
/// address, and those that share one keep their order.
pub proof fn law_contributions_stand_by_address(s: Seq<ObjModel>, r: Seq<ObjModel>) -> (p: Seq<usize>)
    requires
        relink::is_address_sort(s, r),
    ensures
        r.len() == s.len(),
        p.len() == s.len(),
        forall|k: int| 0 <= k < p.len() ==> (#[trigger] p[k]) < s.len() && r[k] == s[p[k] as int],
        forall|x: int| 0 <= x < s.len() ==> #[trigger] is_placed(p, x),
        forall|i: int, j: int|
            #![trigger r[i], r[j]]
            0 <= i < j < r.len() ==> {
                &&& comes_no_later(r[i], r[j])
                &&& comes_no_later(r[j], r[i]) ==> p[i] < p[j]
            },
{
    let p = choose|p: Seq<usize>| relink::arranges(s, r, p);
    assert forall|i: int, j: int| #![trigger r[i], r[j]] 0 <= i < j < r.len() implies {
        &&& comes_no_later(r[i], r[j])
        &&& comes_no_later(r[j], r[i]) ==> p[i] < p[j]
    } by {
        assert(p[i] < s.len() && p[j] < s.len());
        lemma_no_later(r[i], r[j]);
        lemma_no_later(r[j], r[i]);
    }
    let q = Seq::new(p.len(), |k: int| p[k] as int);
    assert forall|k: int| 0 <= k < q.len() implies 0 <= #[trigger] q[k] < q.len() by {
        assert(p[k] < s.len());
    }
    assert(q.no_duplicates()) by {
        assert forall|i: int, j: int| 0 <= i < q.len() && 0 <= j < q.len() && i != j implies q[i]
            != q[j] by {
            assert(p[i] < s.len() && p[j] < s.len());
            if i < j {
                assert(relink::object_le(s[p[i] as int], s[p[j] as int]));
            } else {
                assert(relink::object_le(s[p[j] as int], s[p[i] as int]));
            }
        }
    }
    links::lemma_all_places(q);
    assert forall|x: int| 0 <= x < s.len() implies #[trigger] is_placed(p, x) by {
        assert(q.contains(x));
        let k = choose|k: int| 0 <= k < q.len() && q[k] == x;
        assert(p[k] == x);
    }
    p
}

} // verus!

//! Names that are defined at several addresses, for the user to look into.
use crate::naming;
use crate::obj;
use crate::obj::{ObjInfo, SymbolModel};
use crate::text;
use vstd::prelude::*;
use vstd::string::StringExecFns;

verus! {

/// A name and the addresses at which it is defined.
#[derive(Debug)]
pub struct DuplicateName {
    pub name: String,
    pub addresses: Vec<u32>,
}

#[verifier::ext_equal]
pub struct DuplicateModel {
    pub name: Seq<char>,
    pub addresses: Seq<u32>,
}

impl View for DuplicateName {
    type V = DuplicateModel;

    open spec fn view(&self) -> DuplicateModel {
        DuplicateModel { name: self.name@, addresses: self.addresses@ }
    }
}

/// Whether some definition is spelled `name` and stands at `address`.
pub open spec fn defined_at(syms: Seq<SymbolModel>, name: Seq<char>, address: u32) -> bool {
    exists|i: int|
        0 <= i < syms.len() && naming::is_definition(#[trigger] syms[i]) && syms[i].name == name
            && syms[i].address == address
}

pub open spec fn rises(s: Seq<u32>) -> bool {
    forall|i: int, j: int| 0 <= i < j < s.len() ==> #[trigger] s[i] < #[trigger] s[j]
}

/// Whether the names of a report rise strictly.
pub open spec fn names_rise(r: Seq<DuplicateModel>) -> bool {
    forall|i: int, j: int|
        0 <= i < j < r.len() ==> text::text_le((#[trigger] r[i]).name, (#[trigger] r[j]).name)
            && r[i].name != r[j].name
}

pub open spec fn reports(r: Seq<DuplicateModel>, name: Seq<char>) -> bool {
    exists|e: int| 0 <= e < r.len() && (#[trigger] r[e]).name == name
}

/// Whether `r` lists each name that is defined at two addresses or more, once and in ascending
/// order, with all its addresses in ascending order.
pub open spec fn is_duplicate_report(syms: Seq<SymbolModel>, r: Seq<DuplicateModel>) -> bool {
    &&& names_rise(r)
    &&& forall|e: int|
        0 <= e < r.len() ==> {
            &&& (#[trigger] r[e]).addresses.len() >= 2
            &&& rises(r[e].addresses)
            &&& forall|a: u32| #[trigger]
                r[e].addresses.contains(a) <==> defined_at(syms, r[e].name, a)
        }
    &&& forall|name: Seq<char>, a: u32, b: u32|
        #![trigger defined_at(syms, name, a), defined_at(syms, name, b)]
        a != b && defined_at(syms, name, a) && defined_at(syms, name, b) ==> reports(r, name)
}

/// Whether a definition among the first `p` of the order is spelled `name` and stands at `address`.
spec fn seen(syms: Seq<SymbolModel>, sorted: Seq<usize>, p: int, name: Seq<char>, address: u32) -> bool {
    exists|q: int|
        0 <= q < p && syms[#[trigger] sorted[q] as int].name == name
            && syms[sorted[q] as int].address == address
}

/// Whether `r` reports what the first `p` definitions of the order show.
spec fn reports_up_to(syms: Seq<SymbolModel>, sorted: Seq<usize>, p: int, r: Seq<DuplicateModel>) -> bool {
    &&& names_rise(r)
    &&& forall|e: int|
        0 <= e < r.len() ==> {
            &&& (#[trigger] r[e]).addresses.len() >= 2
            &&& rises(r[e].addresses)
            &&& forall|a: u32| #[trigger]
                r[e].addresses.contains(a) <==> seen(syms, sorted, p, r[e].name, a)
        }
    &&& forall|q: int|
        0 <= q < p && naming::displaced(syms, #[trigger] sorted[q] as int) ==> reports(
            r,
            syms[sorted[q] as int].name,
        )
}

/// Whether places `g` to `p` of the order hold the definitions spelled `name` among the first `p`,
/// at `addresses`.
spec fn is_group(
    syms: Seq<SymbolModel>,
    sorted: Seq<usize>,
    g: int,
    p: int,
    name: Seq<char>,
    addresses: Seq<u32>,
) -> bool {
    &&& 0 <= g < p <= sorted.len()
    &&& rises(addresses)
    &&& addresses.len() > 0
    &&& addresses.last() == syms[sorted[p - 1] as int].address
    &&& forall|q: int| g <= q < p ==> syms[#[trigger] sorted[q] as int].name == name
    &&& forall|q: int| 0 <= q < g ==> syms[#[trigger] sorted[q] as int].name != name
    &&& forall|a: u32| #[trigger]
        addresses.contains(a) <==> exists|q: int|
            g <= q < p && syms[#[trigger] sorted[q] as int].address == a
}

/// A group adds one entry, or none where it has one address.
proof fn lemma_group_done(
    syms: Seq<SymbolModel>,
    sorted: Seq<usize>,
    g: int,
    p: int,
    group: DuplicateModel,
    r: Seq<DuplicateModel>,
)
    requires
        naming::is_definition_order(syms, sorted),
        reports_up_to(syms, sorted, g, r),
        is_group(syms, sorted, g, p, group.name, group.addresses),
        p == sorted.len() || syms[sorted[p] as int].name != group.name,
    ensures
        group.addresses.len() >= 2 ==> reports_up_to(syms, sorted, p, r.push(group)),
        group.addresses.len() < 2 ==> reports_up_to(syms, sorted, p, r),
{
    let name = group.name;
    let next = if group.addresses.len() >= 2 {
        r.push(group)
    } else {
        r
    };
    // The names reported so far stand before the group.
    assert forall|e: int| 0 <= e < r.len() implies text::text_le((#[trigger] r[e]).name, name)
        && r[e].name != name by {
        let a = r[e].addresses[0];
        assert(r[e].addresses.contains(a));
        let q = choose|q: int|
            0 <= q < g && syms[#[trigger] sorted[q] as int].name == r[e].name
                && syms[sorted[q] as int].address == a;
        assert(naming::key_le(
            naming::key(syms[sorted[q] as int]),
            naming::key(syms[sorted[g] as int]),
        ));
    }
    assert forall|e: int| 0 <= e < next.len() implies (#[trigger] next[e]).addresses.len() >= 2
        && rises(next[e].addresses) && (forall|a: u32| #[trigger]
        next[e].addresses.contains(a) <==> seen(syms, sorted, p, next[e].name, a)) by {
        if e < r.len() {
            assert(next[e] == r[e]);
            assert forall|a: u32| #[trigger] next[e].addresses.contains(a) <==> seen(
                syms,
                sorted,
                p,
                next[e].name,
                a,
            ) by {
                assert(r[e].addresses.contains(a) <==> seen(syms, sorted, g, r[e].name, a));
                if seen(syms, sorted, p, r[e].name, a) {
                    let q = choose|q: int|
                        0 <= q < p && syms[#[trigger] sorted[q] as int].name == r[e].name
                            && syms[sorted[q] as int].address == a;
                    assert(q < g);
                }
            }
        } else {
            assert forall|a: u32| #[trigger] next[e].addresses.contains(a) <==> seen(
                syms,
                sorted,
                p,
                next[e].name,
                a,
            ) by {
                assert(group.addresses.contains(a) <==> exists|q: int|
                    g <= q < p && syms[#[trigger] sorted[q] as int].address == a);
                if seen(syms, sorted, p, name, a) {
                    let q = choose|q: int|
                        0 <= q < p && syms[#[trigger] sorted[q] as int].name == name
                            && syms[sorted[q] as int].address == a;
                    assert(q >= g);
                }
            }
        }
    }
    assert forall|q: int|
        0 <= q < p && naming::displaced(syms, #[trigger] sorted[q] as int) implies reports(
        next,
        syms[sorted[q] as int].name,
    ) by {
        let i = sorted[q] as int;
        if q < g {
            assert(reports(r, syms[i].name));
            let e = choose|e: int| 0 <= e < r.len() && (#[trigger] r[e]).name == syms[i].name;
            assert(next[e].name == syms[i].name);
        } else {
            let j = choose|j: int|
                0 <= j < syms.len() && naming::is_definition(#[trigger] syms[j]) && syms[j].name
                    == syms[i].name && syms[j].address < syms[i].address;
            assert(naming::listed(sorted, j));
            let m = choose|m: int| 0 <= m < sorted.len() && sorted[m] == j;
            if m > q {
                assert(naming::key_le(naming::key(syms[i]), naming::key(syms[sorted[m] as int])));
            }
            assert(g <= m < p);
            assert(group.addresses.contains(syms[j].address));
            assert(group.addresses.contains(syms[i].address));
            assert(group.addresses.len() >= 2);
            assert(next[r.len() as int].name == name);
        }
    }
}

proof fn lemma_report_done(syms: Seq<SymbolModel>, sorted: Seq<usize>, r: Seq<DuplicateModel>)
    requires
        naming::is_definition_order(syms, sorted),
        reports_up_to(syms, sorted, sorted.len() as int, r),
    ensures
        is_duplicate_report(syms, r),
{
    let n = sorted.len() as int;
    assert forall|name: Seq<char>, a: u32| #[trigger] defined_at(syms, name, a) <==> seen(
        syms,
        sorted,
        n,
        name,
        a,
    ) by {
        if defined_at(syms, name, a) {
            let i = choose|i: int|
                0 <= i < syms.len() && naming::is_definition(#[trigger] syms[i]) && syms[i].name
                    == name && syms[i].address == a;
            assert(naming::listed(sorted, i));
        }
        if seen(syms, sorted, n, name, a) {
            let q = choose|q: int|
                0 <= q < n && syms[#[trigger] sorted[q] as int].name == name
                    && syms[sorted[q] as int].address == a;
            assert(naming::is_definition(syms[sorted[q] as int]));
        }
    }
    assert forall|name: Seq<char>, a: u32, b: u32|
        #![trigger defined_at(syms, name, a), defined_at(syms, name, b)]
        a != b && defined_at(syms, name, a) && defined_at(syms, name, b) implies reports(r, name) by {
        let high = if a < b {
            b
        } else {
            a
        };
        let low = if a < b {
            a
        } else {
            b
        };
        let j = choose|i: int|
            0 <= i < syms.len() && naming::is_definition(#[trigger] syms[i]) && syms[i].name == name
                && syms[i].address == low;
        let i = choose|i: int|
            0 <= i < syms.len() && naming::is_definition(#[trigger] syms[i]) && syms[i].name == name
                && syms[i].address == high;
        assert(defined_at(syms, name, low) && defined_at(syms, name, high));
        assert(naming::is_definition(syms[j]));
        assert(naming::displaced(syms, i));
        assert(naming::listed(sorted, i));
        let q = choose|q: int| 0 <= q < sorted.len() && sorted[q] == i;
        assert(naming::displaced(syms, sorted[q] as int));
    }
}

/// The names that are defined at two addresses or more.
pub fn duplicate_names(image: &ObjInfo) -> (r: Vec<DuplicateName>)
    ensures
        is_duplicate_report(image@.symbols, obj::views(r@)),
{
    let symbols = &image.symbols;
    let ghost syms = obj::views(symbols@);
    let sorted = naming::sorted_definitions(symbols);
    let mut r: Vec<DuplicateName> = Vec::new();
    assert(obj::views(r@) =~= Seq::<DuplicateModel>::empty());
    let mut start: usize = 0;
    while start < sorted.len()
        invariant
            start <= sorted.len(),
            syms == obj::views(symbols@),
            naming::is_definition_order(syms, sorted@),
            reports_up_to(syms, sorted@, start as int, obj::views(r@)),
            0 < start < sorted.len() ==> syms[sorted@[start - 1] as int].name
                != syms[sorted@[start as int] as int].name,
        decreases sorted.len() - start,
    {
        let name = symbols[sorted[start]].name.clone();
        let mut addresses: Vec<u32> = Vec::new();
        addresses.push(symbols[sorted[start]].address);
        let mut p: usize = start + 1;
        proof {
            assert(syms[sorted@[start as int] as int] == symbols@[sorted@[start as int] as int]@);
            assert forall|q: int| 0 <= q < start implies syms[#[trigger] sorted@[q] as int].name
                != name@ by {
                let b = sorted@[start - 1] as int;
                if q < start - 1 {
                    assert(naming::key_le(naming::key(syms[sorted@[q] as int]), naming::key(syms[b])));
                } else {
                    text::lemma_text_le_total(syms[b].name, syms[b].name);
                }
                assert(naming::key_le(
                    naming::key(syms[b]),
                    naming::key(syms[sorted@[start as int] as int]),
                ));
                if syms[sorted@[q] as int].name == name@ {
                    text::lemma_text_le_antisymmetric(syms[b].name, name@);
                }
            }
            assert forall|a: u32| #[trigger] addresses@.contains(a) <==> exists|q: int|
                start <= q < p && syms[#[trigger] sorted@[q] as int].address == a by {
                if addresses@.contains(a) {
                    assert(syms[sorted@[start as int] as int].address == a);
                }
                if exists|q: int| start <= q < p && syms[#[trigger] sorted@[q] as int].address == a {
                    assert(addresses@[0] == a);
                }
            }
        }
        while p < sorted.len() && symbols[sorted[p]].name == name
            invariant
                start < p <= sorted.len(),
                syms == obj::views(symbols@),
                naming::is_definition_order(syms, sorted@),
                is_group(syms, sorted@, start as int, p as int, name@, addresses@),
            decreases sorted.len() - p,
        {
            let address: u32 = symbols[sorted[p]].address;
            let ghost before = addresses@;
            proof {
                assert(syms[sorted@[p as int] as int] == symbols@[sorted@[p as int] as int]@);
                assert(naming::key_le(
                    naming::key(syms[sorted@[p - 1] as int]),
                    naming::key(syms[sorted@[p as int] as int]),
                ));
                assert(syms[sorted@[p - 1] as int].name == name@);
            }
            if addresses[addresses.len() - 1] != address {
                addresses.push(address);
            }
            p = p + 1;
            proof {
                assert forall|a: u32| #[trigger] addresses@.contains(a) <==> exists|q: int|
                    start <= q < p && syms[#[trigger] sorted@[q] as int].address == a by {
                    assert(before.contains(a) <==> exists|q: int|
                        start <= q < p - 1 && syms[#[trigger] sorted@[q] as int].address == a);
                    if addresses@.contains(a) {
                        let k = choose|k: int| 0 <= k < addresses.len() && addresses@[k] == a;
                        if k < before.len() {
                            assert(before[k] == a);
                        } else {
                            assert(syms[sorted@[p - 1] as int].address == a);
                        }
                    }
                    if before.contains(a) {
                        let k = choose|k: int| 0 <= k < before.len() && before[k] == a;
                        assert(addresses@[k] == a);
                    }
                    if a == address {
                        assert(addresses@[addresses.len() - 1] == a);
                    }
                }
                assert(rises(addresses@)) by {
                    assert forall|i: int, j: int| 0 <= i < j < addresses.len() implies #[trigger] addresses@[i]
                        < #[trigger] addresses@[j] by {
                        if j == before.len() && i < j - 1 {
                            assert(before[i] < before[j - 1]);
                        }
                    }
                }
            }
        }
        let ghost group = DuplicateModel { name: name@, addresses: addresses@ };
        let ghost before = r@;
        proof {
            if p < sorted.len() {
                assert(syms[sorted@[p as int] as int] == symbols@[sorted@[p as int] as int]@);
            }
            assert(syms[sorted@[p - 1] as int].name == name@);
            lemma_group_done(syms, sorted@, start as int, p as int, group, obj::views(r@));
        }
        if addresses.len() >= 2 {
            r.push(DuplicateName { name, addresses });
            assert(obj::views(r@) =~= obj::views(before).push(group));
        }
        start = p;
    }
    proof {
        lemma_report_done(syms, sorted@, obj::views(r@));
    }
    r
}

/// An address as it stands in a warning.
pub open spec fn shown_address(address: u32) -> Seq<char> {
    seq!['0', 'x'] + text::hex8(address)
}

/// Addresses as they stand in a warning, with commas between them.
pub open spec fn shown_addresses(addresses: Seq<u32>) -> Seq<char>
    decreases addresses.len(),
{
    if addresses.len() == 0 {
        Seq::empty()
    } else if addresses.len() == 1 {
        shown_address(addresses[0])
    } else {
        shown_addresses(addresses.drop_last()) + seq![',', ' '] + shown_address(addresses.last())
    }
}

/// The warning for a name at several addresses.
pub open spec fn warning_text(name: Seq<char>, addresses: Seq<u32>) -> Seq<char> {
    "Duplicate COFF name "@ + name + ": "@ + shown_addresses(addresses)
}

impl DuplicateName {
    /// The warning for this name, with every address.
    pub fn warning(&self) -> (r: String)
        ensures
            r@ == "Duplicate COFF name "@ + self.name@ + ": "@ + shown_addresses(self.addresses@),
            r@ == warning_text(self.name@, self.addresses@),
    {
        let mut r = String::from_str("Duplicate COFF name ");
        r.append(self.name.as_str());
        r.append(": ");
        let ghost start = r@;
        let mut i: usize = 0;
        proof {
            reveal_strlit("0x");
            reveal_strlit(", ");
            assert("0x"@ =~= seq!['0', 'x']);
            assert(", "@ =~= seq![',', ' ']);
            assert(start =~= start + shown_addresses(self.addresses@.take(0)));
        }
        while i < self.addresses.len()
            invariant
                i <= self.addresses.len(),
                r@ == start + shown_addresses(self.addresses@.take(i as int)),
                "0x"@ == seq!['0', 'x'],
                ", "@ == seq![',', ' '],
            decreases self.addresses.len() - i,
        {
            if i > 0 {
                r.append(", ");
            }
            r.append("0x");
            text::push_hex8(&mut r, self.addresses[i]);
            proof {
                let next = self.addresses@.take(i + 1);
                assert(next.drop_last() =~= self.addresses@.take(i as int));
                assert(next.last() == self.addresses@[i as int]);
                assert(r@ =~= start + shown_addresses(next));
            }
            i = i + 1;
        }
        assert(self.addresses@.take(i as int) =~= self.addresses@);
        r
    }
}

} // verus!

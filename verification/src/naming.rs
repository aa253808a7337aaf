//! Which definitions of an image get a new spelling, and which spelling that is.
//!
//! A name that is defined at several addresses keeps its spelling at the lowest of them. Each
//! other address gets a spelling of its own, the same for all definitions there.
use crate::obj;
use crate::obj::{ObjSymbol, ObjSymbolKind, SymbolModel};
use crate::order;
use crate::order::PositionOrder;
use crate::text;
use vstd::hash_set::StringHashSet;
use vstd::prelude::*;
use vstd::string::StringExecFns;

verus! {

/// What tells one definition from another: its spelling and its address.
pub type DefinitionKey = (Seq<char>, u32);

/// Whether a symbol stands for a place in the image, and not for a section or an import.
pub open spec fn is_definition(s: SymbolModel) -> bool {
    s.section is Some && s.kind != ObjSymbolKind::Section
}

pub open spec fn key(s: SymbolModel) -> DefinitionKey {
    (s.name, s.address)
}

/// Keys by spelling, then by address.
pub open spec fn key_le(a: DefinitionKey, b: DefinitionKey) -> bool {
    text::text_le(a.0, b.0) && (a.0 == b.0 ==> a.1 <= b.1)
}

pub open spec fn key_lt(a: DefinitionKey, b: DefinitionKey) -> bool {
    key_le(a, b) && a != b
}

/// Whether symbol `i` is a definition whose spelling is also defined at a lower address.
pub open spec fn displaced(syms: Seq<SymbolModel>, i: int) -> bool {
    &&& is_definition(syms[i])
    &&& exists|j: int|
        0 <= j < syms.len() && is_definition(#[trigger] syms[j]) && syms[j].name == syms[i].name
            && syms[j].address < syms[i].address
}

/// Whether `keys` are the keys of the displaced definitions, in ascending order.
pub open spec fn is_rename_order(syms: Seq<SymbolModel>, keys: Seq<DefinitionKey>) -> bool {
    &&& order::strictly_sorted(keys, |a: DefinitionKey, b: DefinitionKey| key_lt(a, b))
    &&& forall|k: DefinitionKey| #[trigger]
        keys.contains(k) <==> exists|i: int|
            0 <= i < syms.len() && #[trigger] displaced(syms, i) && key(syms[i]) == k
}

/// The keys of the displaced definitions, in ascending order.
pub open spec fn rename_order(syms: Seq<SymbolModel>) -> Seq<DefinitionKey> {
    choose|keys: Seq<DefinitionKey>| is_rename_order(syms, keys)
}

/// The length of what is appended to a name for an address.
pub const QUALIFIER_LEN: usize = 9;

/// What is appended to a name for an address.
pub open spec fn qualifier(address: u32) -> Seq<char> {
    seq!['_'] + text::hex8(address)
}

/// The first choice of a spelling for a displaced definition.
pub open spec fn stem(k: DefinitionKey) -> Seq<char> {
    k.0 + qualifier(k.1)
}

/// The spellings to try, in turn: the stem, then the stem with a counter.
pub open spec fn candidate(stem: Seq<char>, n: nat) -> Seq<char> {
    if n == 0 {
        stem
    } else {
        stem + seq!['_'] + text::decimal(n)
    }
}

pub open spec fn is_first_free(stem: Seq<char>, taken: Set<Seq<char>>, n: nat) -> bool {
    &&& !taken.contains(candidate(stem, n))
    &&& forall|m: nat| m < n ==> taken.contains(#[trigger] candidate(stem, m))
}

/// How many candidates are taken before the first that is free.
pub open spec fn collisions(stem: Seq<char>, taken: Set<Seq<char>>) -> nat {
    choose|n: nat| is_first_free(stem, taken, n)
}

/// The first candidate that is not taken.
pub open spec fn free_name(stem: Seq<char>, taken: Set<Seq<char>>) -> Seq<char> {
    candidate(stem, collisions(stem, taken))
}

/// The spellings for `keys`, one after the other. None is taken, nor given twice.
pub open spec fn new_names(keys: Seq<DefinitionKey>, taken: Set<Seq<char>>) -> Seq<Seq<char>>
    decreases keys.len(),
{
    if keys.len() == 0 {
        Seq::empty()
    } else {
        let earlier = new_names(keys.drop_last(), taken);
        earlier.push(free_name(stem(keys.last()), taken.union(earlier.to_set())))
    }
}

/// All spellings in use.
pub open spec fn spellings(syms: Seq<SymbolModel>) -> Set<Seq<char>> {
    syms.map_values(|s: SymbolModel| s.name).to_set()
}

/// The new spelling of a displaced definition.
pub open spec fn new_name(syms: Seq<SymbolModel>, i: int) -> Seq<char> {
    let keys = rename_order(syms);
    new_names(keys, spellings(syms))[keys.index_of(key(syms[i]))]
}

/// The symbols with the displaced definitions renamed. Everything but names stays.
pub open spec fn renamed(syms: Seq<SymbolModel>) -> Seq<SymbolModel> {
    Seq::new(
        syms.len(),
        |i: int|
            if displaced(syms, i) {
                SymbolModel { name: new_name(syms, i), demangled_name: None, ..syms[i] }
            } else {
                syms[i]
            },
    )
}

pub proof fn lemma_key_le_total(a: DefinitionKey, b: DefinitionKey)
    ensures
        key_le(a, b) || key_le(b, a),
{
    text::lemma_text_le_total(a.0, b.0);
    if text::text_le(a.0, b.0) && text::text_le(b.0, a.0) {
        text::lemma_text_le_antisymmetric(a.0, b.0);
    }
}

pub proof fn lemma_key_le_transitive(a: DefinitionKey, b: DefinitionKey, c: DefinitionKey)
    requires
        key_le(a, b),
        key_le(b, c),
    ensures
        key_le(a, c),
{
    text::lemma_text_le_transitive(a.0, b.0, c.0);
    if a.0 == c.0 {
        text::lemma_text_le_antisymmetric(a.0, b.0);
    }
}

pub proof fn lemma_key_lt_asymmetric(a: DefinitionKey, b: DefinitionKey)
    requires
        key_lt(a, b),
    ensures
        !key_lt(b, a),
{
    if key_le(b, a) {
        text::lemma_text_le_antisymmetric(a.0, b.0);
    }
}

proof fn lemma_key_lt_le(a: DefinitionKey, b: DefinitionKey, c: DefinitionKey)
    requires
        key_le(a, b),
        key_lt(b, c),
    ensures
        key_lt(a, c),
{
    lemma_key_le_transitive(a, b, c);
    if a == c {
        text::lemma_text_le_antisymmetric(a.0, b.0);
    }
}

/// The keys of the displaced definitions have one ascending order.
pub proof fn lemma_rename_order_unique(syms: Seq<SymbolModel>, a: Seq<DefinitionKey>, b: Seq<DefinitionKey>)
    requires
        is_rename_order(syms, a),
        is_rename_order(syms, b),
    ensures
        a == b,
{
    let lt = |x: DefinitionKey, y: DefinitionKey| key_lt(x, y);
    assert forall|x: DefinitionKey, y: DefinitionKey| #![trigger lt(x, y)] lt(x, y) implies !lt(
        y,
        x,
    ) by {
        lemma_key_lt_asymmetric(x, y);
    }
    assert forall|e: DefinitionKey| #[trigger] a.contains(e) <==> b.contains(e) by {
        assert(b.contains(e) <==> exists|i: int|
            0 <= i < syms.len() && #[trigger] displaced(syms, i) && key(syms[i]) == e);
    }
    order::lemma_strictly_sorted_unique(a, b, lt);
}

proof fn lemma_insert_key(keys: Seq<DefinitionKey>, k: DefinitionKey) -> (r: Seq<DefinitionKey>)
    requires
        order::strictly_sorted(keys, |a: DefinitionKey, b: DefinitionKey| key_lt(a, b)),
    ensures
        order::strictly_sorted(r, |a: DefinitionKey, b: DefinitionKey| key_lt(a, b)),
        forall|e: DefinitionKey| #[trigger] r.contains(e) <==> keys.contains(e) || e == k,
    decreases keys.len(),
{
    let lt = |a: DefinitionKey, b: DefinitionKey| key_lt(a, b);
    if keys.len() == 0 {
        let r = seq![k];
        assert(r[0] == k);
        r
    } else {
        let last = keys.last();
        assert(keys.contains(last)) by {
            assert(keys[keys.len() - 1] == last);
        }
        lemma_key_le_total(last, k);
        if last == k {
            keys
        } else if key_le(last, k) {
            let r = keys.push(k);
            assert forall|i: int, j: int|
                #![trigger r[i], r[j]]
                0 <= i < j < r.len() implies lt(r[i], r[j]) by {
                if j == keys.len() {
                    if i < keys.len() - 1 {
                        assert(lt(keys[i], keys[keys.len() - 1]));
                    } else {
                        text::lemma_text_le_total(last.0, last.0);
                    }
                    lemma_key_lt_le(r[i], last, k);
                } else {
                    assert(lt(keys[i], keys[j]));
                }
            }
            assert forall|e: DefinitionKey| #[trigger] r.contains(e) <==> keys.contains(e) || e
                == k by {
                if keys.contains(e) {
                    let i = choose|i: int| 0 <= i < keys.len() && keys[i] == e;
                    assert(r[i] == e);
                }
                assert(r[keys.len() as int] == k);
            }
            r
        } else {
            let front = keys.drop_last();
            assert(order::strictly_sorted(front, lt)) by {
                assert forall|i: int, j: int|
                    #![trigger front[i], front[j]]
                    0 <= i < j < front.len() implies lt(front[i], front[j]) by {
                    assert(lt(keys[i], keys[j]));
                }
            }
            let inner = lemma_insert_key(front, k);
            let r = inner.push(last);
            assert forall|i: int, j: int|
                #![trigger r[i], r[j]]
                0 <= i < j < r.len() implies lt(r[i], r[j]) by {
                if j == inner.len() {
                    assert(inner.contains(inner[i]));
                    if inner[i] != k {
                        let m = choose|m: int| 0 <= m < front.len() && front[m] == inner[i];
                        assert(lt(keys[m], keys[keys.len() - 1]));
                    }
                } else {
                    assert(lt(inner[i], inner[j]));
                }
            }
            assert forall|e: DefinitionKey| #[trigger] r.contains(e) <==> keys.contains(e) || e
                == k by {
                assert(inner.contains(e) <==> front.contains(e) || e == k);
                if r.contains(e) {
                    let i = choose|i: int| 0 <= i < r.len() && r[i] == e;
                    if i < inner.len() {
                        assert(inner[i] == e);
                    }
                    if front.contains(e) {
                        let m = choose|m: int| 0 <= m < front.len() && front[m] == e;
                        assert(keys[m] == e);
                    }
                }
                if keys.contains(e) {
                    let i = choose|i: int| 0 <= i < keys.len() && keys[i] == e;
                    if i < front.len() {
                        assert(front[i] == e);
                    }
                }
                if inner.contains(e) {
                    let i = choose|i: int| 0 <= i < inner.len() && inner[i] == e;
                    assert(r[i] == e);
                }
                assert(r[inner.len() as int] == last);
            }
            r
        }
    }
}

spec fn key_among(syms: Seq<SymbolModel>, n: int, k: DefinitionKey) -> bool {
    exists|i: int| 0 <= i < n && #[trigger] displaced(syms, i) && key(syms[i]) == k
}

proof fn lemma_keys_up_to(syms: Seq<SymbolModel>, n: int) -> (r: Seq<DefinitionKey>)
    requires
        0 <= n <= syms.len(),
    ensures
        order::strictly_sorted(r, |a: DefinitionKey, b: DefinitionKey| key_lt(a, b)),
        forall|k: DefinitionKey| #[trigger] r.contains(k) <==> key_among(syms, n, k),
    decreases n,
{
    if n == 0 {
        Seq::empty()
    } else {
        let before = lemma_keys_up_to(syms, n - 1);
        if displaced(syms, n - 1) {
            let r = lemma_insert_key(before, key(syms[n - 1]));
            assert forall|k: DefinitionKey| #[trigger] r.contains(k) <==> key_among(syms, n, k) by {
                assert(before.contains(k) <==> key_among(syms, n - 1, k));
            }
            r
        } else {
            assert forall|k: DefinitionKey| #[trigger]
                before.contains(k) <==> key_among(syms, n, k) by {}
            before
        }
    }
}

/// The keys of the displaced definitions have an ascending order.
pub proof fn lemma_rename_order(syms: Seq<SymbolModel>)
    ensures
        is_rename_order(syms, rename_order(syms)),
{
    let keys = lemma_keys_up_to(syms, syms.len() as int);
    assert forall|k: DefinitionKey| #[trigger]
        keys.contains(k) <==> exists|i: int|
            0 <= i < syms.len() && #[trigger] displaced(syms, i) && key(syms[i]) == k by {
        assert(keys.contains(k) <==> key_among(syms, syms.len() as int, k));
    }
    assert(is_rename_order(syms, keys));
}

pub proof fn lemma_decimal_value(n: nat)
    ensures
        text::decimal_value(text::decimal(n)) == n,
        text::decimal(n).len() > 0,
        forall|i: int|
            0 <= i < text::decimal(n).len() ==> text::is_decimal_digit(
                #[trigger] text::decimal(n)[i],
            ),
    decreases n,
{
    reveal_with_fuel(text::decimal_value, 2);
    if n >= 10 {
        lemma_decimal_value(n / 10);
        assert(text::decimal(n).drop_last() =~= text::decimal(n / 10));
    } else {
        assert(text::decimal(n).drop_last() =~= Seq::<char>::empty());
    }
}

/// No two candidates are spelled alike.
pub proof fn lemma_candidate_injective(stem: Seq<char>, a: nat, b: nat)
    requires
        candidate(stem, a) == candidate(stem, b),
    ensures
        a == b,
{
    lemma_decimal_value(a);
    lemma_decimal_value(b);
    let ca = candidate(stem, a);
    let cb = candidate(stem, b);
    if a != 0 && b != 0 {
        assert(ca.skip(stem.len() as int + 1) =~= text::decimal(a));
        assert(cb.skip(stem.len() as int + 1) =~= text::decimal(b));
    } else if a != b {
        assert(ca.len() != cb.len());
    }
}

/// The first `n` candidates.
spec fn candidates(stem: Seq<char>, n: nat) -> Seq<Seq<char>> {
    Seq::new(n, |m: int| candidate(stem, m as nat))
}

proof fn lemma_taken_candidates(stem: Seq<char>, taken: Set<Seq<char>>, n: nat)
    requires
        taken.finite(),
        forall|m: nat| m < n ==> taken.contains(#[trigger] candidate(stem, m)),
    ensures
        n <= taken.len(),
{
    let s = candidates(stem, n);
    assert forall|i: int, j: int| 0 <= i < s.len() && 0 <= j < s.len() && i != j implies s[i]
        != s[j] by {
        if s[i] == s[j] {
            lemma_candidate_injective(stem, i as nat, j as nat);
        }
    }
    assert(s.no_duplicates());
    s.unique_seq_to_set();
    assert(s.to_set().subset_of(taken)) by {
        assert forall|x: Seq<char>| s.to_set().contains(x) implies taken.contains(x) by {
            let i = choose|i: int| 0 <= i < s.len() && s[i] == x;
            assert(x == candidate(stem, i as nat));
        }
    }
    vstd::set_lib::lemma_len_subset(s.to_set(), taken);
}

proof fn lemma_first_free_from(stem: Seq<char>, taken: Set<Seq<char>>, n: nat)
    requires
        taken.finite(),
        forall|m: nat| m < n ==> taken.contains(#[trigger] candidate(stem, m)),
    ensures
        exists|k: nat| is_first_free(stem, taken, k),
    decreases taken.len() + 1 - n,
{
    lemma_taken_candidates(stem, taken, n);
    if taken.contains(candidate(stem, n)) {
        assert forall|m: nat| m < n + 1 implies taken.contains(#[trigger] candidate(stem, m)) by {
            if m == n {
            }
        }
        lemma_first_free_from(stem, taken, n + 1);
    } else {
        assert(is_first_free(stem, taken, n));
    }
}

/// Among finitely many spellings some candidate is free.
pub proof fn lemma_collisions(stem: Seq<char>, taken: Set<Seq<char>>)
    requires
        taken.finite(),
    ensures
        is_first_free(stem, taken, collisions(stem, taken)),
{
    lemma_first_free_from(stem, taken, 0);
}

proof fn lemma_first_free_unique(stem: Seq<char>, taken: Set<Seq<char>>, a: nat, b: nat)
    requires
        is_first_free(stem, taken, a),
        is_first_free(stem, taken, b),
    ensures
        a == b,
{
    if a < b {
        assert(taken.contains(candidate(stem, a)));
    } else if b < a {
        assert(taken.contains(candidate(stem, b)));
    }
}

pub proof fn lemma_new_names_len(keys: Seq<DefinitionKey>, taken: Set<Seq<char>>)
    ensures
        new_names(keys, taken).len() == keys.len(),
    decreases keys.len(),
{
    if keys.len() > 0 {
        lemma_new_names_len(keys.drop_last(), taken);
    }
}

/// The first candidate for `stem` that is not taken.
fn free_spelling(stem: &String, taken: &StringHashSet) -> (r: String)
    requires
        taken@.finite(),
    ensures
        r@ == free_name(stem@, taken@),
{
    let mut unique = stem.clone();
    let mut collision: usize = 0;
    broadcast use vstd::hash_set::group_hash_set_axioms;

    assert(taken@.len() == taken.spec_len());
    while taken.contains(unique.as_str())
        invariant
            unique@ == candidate(stem@, collision as nat),
            taken@.finite(),
            taken@.len() == taken.spec_len(),
            forall|m: nat| m < collision ==> taken@.contains(#[trigger] candidate(stem@, m)),
        decreases taken@.len() - collision,
    {
        proof {
            assert forall|m: nat| m < collision + 1 implies taken@.contains(
                #[trigger] candidate(stem@, m),
            ) by {
                if m == collision {
                }
            }
            lemma_taken_candidates(stem@, taken@, (collision + 1) as nat);
        }
        collision = collision + 1;
        unique = stem.clone();
        proof {
            reveal_strlit("_");
        }
        unique.append("_");
        text::push_decimal(&mut unique, collision);
        assert(unique@ =~= candidate(stem@, collision as nat));
    }
    proof {
        assert(is_first_free(stem@, taken@, collision as nat));
        lemma_collisions(stem@, taken@);
        lemma_first_free_unique(stem@, taken@, collision as nat, collisions(stem@, taken@));
    }
    unique
}

/// The definitions of an image, in the order of their keys.
struct KeyOrder {
    keys: Vec<(Vec<char>, u32)>,
}

impl KeyOrder {
    spec fn key_at(self, p: int) -> DefinitionKey {
        (self.keys@[p].0@, self.keys@[p].1)
    }
}

impl PositionOrder for KeyOrder {
    closed spec fn count(&self) -> nat {
        self.keys@.len()
    }

    closed spec fn le(&self, a: int, b: int) -> bool {
        key_le(self.key_at(a), self.key_at(b))
    }

    proof fn lemma_total(&self, a: int, b: int) {
        lemma_key_le_total(self.key_at(a), self.key_at(b));
    }

    proof fn lemma_transitive(&self, a: int, b: int, c: int) {
        lemma_key_le_transitive(self.key_at(a), self.key_at(b), self.key_at(c));
    }

    fn at_most(&self, a: usize, b: usize) -> (r: bool) {
        let x = &self.keys[a];
        let y = &self.keys[b];
        if !text::text_at_most(&x.0, &y.0) {
            return false;
        }
        if text::text_at_most(&y.0, &x.0) {
            proof {
                text::lemma_text_le_antisymmetric(x.0@, y.0@);
            }
            x.1 <= y.1
        } else {
            proof {
                if x.0@ == y.0@ {
                    text::lemma_text_le_total(x.0@, y.0@);
                }
            }
            true
        }
    }
}

/// Whether `i` is among `positions`.
pub open spec fn listed(positions: Seq<usize>, i: int) -> bool {
    exists|p: int| 0 <= p < positions.len() && #[trigger] positions[p] == i
}

/// Whether `sorted` lists the definitions among `syms`, each once, by ascending key.
pub open spec fn is_definition_order(syms: Seq<SymbolModel>, sorted: Seq<usize>) -> bool {
    &&& forall|p: int|
        0 <= p < sorted.len() ==> (#[trigger] sorted[p]) < syms.len() && is_definition(
            syms[sorted[p] as int],
        )
    &&& forall|i: int|
        0 <= i < syms.len() && is_definition(#[trigger] syms[i]) ==> listed(sorted, i)
    &&& forall|p: int, q: int|
        #![trigger sorted[p], sorted[q]]
        0 <= p < q < sorted.len() ==> sorted[p] != sorted[q] && key_le(
            key(syms[sorted[p] as int]),
            key(syms[sorted[q] as int]),
        )
}

/// The definitions, each once, by ascending key.
pub fn sorted_definitions(symbols: &Vec<ObjSymbol>) -> (r: Vec<usize>)
    ensures
        is_definition_order(obj::views(symbols@), r@),
{
    let ghost syms = obj::views(symbols@);
    let mut definitions: Vec<usize> = Vec::new();
    let mut keys: Vec<(Vec<char>, u32)> = Vec::new();
    let mut i: usize = 0;
    while i < symbols.len()
        invariant
            i <= symbols.len(),
            syms == obj::views(symbols@),
            keys.len() == definitions.len(),
            forall|p: int|
                0 <= p < definitions.len() ==> (#[trigger] definitions@[p]) < i && is_definition(
                    syms[definitions@[p] as int],
                ),
            forall|p: int|
                0 <= p < keys.len() ==> (#[trigger] keys@[p]).0@ == syms[definitions@[p] as int].name
                    && keys@[p].1 == syms[definitions@[p] as int].address,
            forall|k: int|
                0 <= k < i && is_definition(#[trigger] syms[k]) ==> listed(
                    definitions@,
                    k,
                ),
            forall|p: int, q: int|
                #![trigger definitions@[p], definitions@[q]]
                0 <= p < q < definitions.len() ==> definitions@[p] < definitions@[q],
        decreases symbols.len() - i,
    {
        let symbol = &symbols[i];
        assert(syms[i as int] == symbol@);
        if symbol.section.is_some() && symbol.kind != ObjSymbolKind::Section {
            let ghost before = definitions@;
            definitions.push(i);
            keys.push((text::chars_of(symbol.name.as_str()), symbol.address));
            proof {
                assert(definitions@[before.len() as int] == i);
                assert forall|k: int| 0 <= k < i + 1 && is_definition(#[trigger] syms[k]) implies listed(
                    definitions@,
                    k,
                ) by {
                    if k < i {
                        assert(listed(before, k));
                        let p = choose|p: int| 0 <= p < before.len() && before[p] == k;
                        assert(definitions@[p] == k);
                    }
                }
            }
        }
        i = i + 1;
    }
    let by_key = KeyOrder { keys };
    let positions = order::sorted_positions(&by_key, by_key.keys.len());
    let mut sorted: Vec<usize> = Vec::new();
    let mut p: usize = 0;
    while p < positions.len()
        invariant
            p <= positions.len(),
            sorted.len() == p,
            by_key.keys.len() == definitions.len(),
            order::is_sorted_range(&by_key, positions@, 0, definitions.len() as int),
            forall|q: int|
                0 <= q < p ==> (#[trigger] positions@[q]) < definitions.len() && sorted@[q]
                    == definitions@[positions@[q] as int],
        decreases positions.len() - p,
    {
        assert(positions@.contains(positions@[p as int]));
        sorted.push(definitions[positions[p]]);
        p = p + 1;
    }
    proof {
        assert forall|q: int| 0 <= q < sorted.len() implies (#[trigger] sorted@[q]) < syms.len()
            && is_definition(syms[sorted@[q] as int]) by {
            assert(sorted@[q] == definitions@[positions@[q] as int]);
        }
        assert forall|k: int| 0 <= k < syms.len() && is_definition(#[trigger] syms[k]) implies listed(
            sorted@,
            k,
        ) by {
            assert(listed(definitions@, k));
            let d = choose|d: int| 0 <= d < definitions.len() && definitions@[d] == k;
            assert(positions@.contains(d as usize));
            let q = choose|q: int| 0 <= q < positions.len() && positions@[q] == d as usize;
            assert(sorted@[q] == k);
        }
        assert forall|a: int, b: int|
            #![trigger sorted@[a], sorted@[b]]
            0 <= a < b < sorted.len() implies sorted@[a] != sorted@[b] && key_le(
            key(syms[sorted@[a] as int]),
            key(syms[sorted@[b] as int]),
        ) by {
            let x = positions@[a] as int;
            let y = positions@[b] as int;
            assert(order::precedes(&by_key, x, y));
            assert(x != y);
            assert(by_key.key_at(x) == key(syms[definitions@[x] as int])) by {
                assert(by_key.keys@[x].0@ == syms[definitions@[x] as int].name);
            }
            assert(by_key.key_at(y) == key(syms[definitions@[y] as int])) by {
                assert(by_key.keys@[y].0@ == syms[definitions@[y] as int].name);
            }
            assert(definitions@[x] != definitions@[y]) by {
                if x < y {
                    assert(definitions@[x] < definitions@[y]);
                } else {
                    assert(definitions@[y] < definitions@[x]);
                }
            }
        }
    }
    sorted
}

/// Whether the definition at place `p` of the order is displaced, told from the place before.
proof fn lemma_displaced_at(syms: Seq<SymbolModel>, sorted: Seq<usize>, p: int)
    requires
        is_definition_order(syms, sorted),
        0 <= p < sorted.len(),
    ensures
        p == 0 ==> !displaced(syms, sorted[p] as int),
        p > 0 && syms[sorted[p - 1] as int].name != syms[sorted[p] as int].name ==> !displaced(
            syms,
            sorted[p] as int,
        ),
        p > 0 && syms[sorted[p - 1] as int].name == syms[sorted[p] as int].name
            && syms[sorted[p - 1] as int].address != syms[sorted[p] as int].address ==> displaced(
            syms,
            sorted[p] as int,
        ),
        p > 0 && key(syms[sorted[p - 1] as int]) == key(syms[sorted[p] as int]) ==> displaced(
            syms,
            sorted[p] as int,
        ) == displaced(syms, sorted[p - 1] as int),
{
    let i = sorted[p] as int;
    if p > 0 {
        assert(key_le(key(syms[sorted[p - 1] as int]), key(syms[i])));
    }
    if displaced(syms, i) {
        let j = choose|j: int|
            0 <= j < syms.len() && is_definition(#[trigger] syms[j]) && syms[j].name
                == syms[i].name && syms[j].address < syms[i].address;
        assert(listed(sorted, j));
        let q = choose|q: int| 0 <= q < sorted.len() && sorted[q] == j;
        if q > p {
            assert(key_le(key(syms[i]), key(syms[sorted[q] as int])));
        }
        assert(q < p);
        let b = sorted[p - 1] as int;
        if q < p - 1 {
            assert(key_le(key(syms[sorted[q] as int]), key(syms[b])));
        } else {
            text::lemma_text_le_total(syms[b].name, syms[b].name);
        }
        assert(text::text_le(syms[j].name, syms[b].name));
        assert(text::text_le(syms[b].name, syms[i].name));
        text::lemma_text_le_antisymmetric(syms[b].name, syms[i].name);
        if key(syms[b]) == key(syms[i]) {
            assert(syms[j].name == syms[b].name && syms[j].address < syms[b].address);
            assert(displaced(syms, b));
        }
    }
    if p > 0 {
        let b = sorted[p - 1] as int;
        if key(syms[b]) == key(syms[i]) && displaced(syms, b) {
            let j = choose|j: int|
                0 <= j < syms.len() && is_definition(#[trigger] syms[j]) && syms[j].name
                    == syms[b].name && syms[j].address < syms[b].address;
            assert(is_definition(syms[j]) && syms[j].name == syms[i].name && syms[j].address
                < syms[i].address);
        }
        if syms[b].name == syms[i].name && syms[b].address != syms[i].address {
            assert(is_definition(syms[b]) && syms[b].address < syms[i].address);
        }
    }
}

/// The spellings in use, as a set to look up.
fn spelling_set(symbols: &Vec<ObjSymbol>) -> (r: StringHashSet)
    ensures
        r@ == spellings(obj::views(symbols@)),
        r@.finite(),
{
    let ghost syms = obj::views(symbols@);
    let ghost names = syms.map_values(|s: SymbolModel| s.name);
    let mut r = StringHashSet::new();
    let mut i: usize = 0;
    assert(names.take(0).to_set() =~= Set::<Seq<char>>::empty());
    while i < symbols.len()
        invariant
            i <= symbols.len(),
            syms == obj::views(symbols@),
            names == syms.map_values(|s: SymbolModel| s.name),
            r@ == names.take(i as int).to_set(),
        decreases symbols.len() - i,
    {
        let name = symbols[i].name.clone();
        let ghost before = names.take(i as int);
        let _ = r.insert(name);
        proof {
            let after = names.take(i + 1);
            assert(after =~= before.push(name@));
            assert forall|x: Seq<char>| #[trigger] r@.contains(x) <==> after.to_set().contains(x) by {
                if before.contains(x) {
                    let k = choose|k: int| 0 <= k < before.len() && before[k] == x;
                    assert(after[k] == x);
                }
                assert(after[i as int] == name@);
                if after.contains(x) {
                    let k = choose|k: int| 0 <= k < after.len() && after[k] == x;
                    if k < i {
                        assert(before[k] == x);
                    }
                }
            }
            assert(r@ =~= after.to_set());
        }
        i = i + 1;
    }
    proof {
        assert(names.take(i as int) =~= names);
        vstd::seq_lib::seq_to_set_is_finite(names);
    }
    r
}

/// The new spellings of the displaced definitions, and none for the other symbols.
pub fn choose_names(symbols: &Vec<ObjSymbol>) -> (r: Vec<Option<String>>)
    ensures
        r.len() == symbols.len(),
        forall|i: int|
            0 <= i < r.len() ==> (match #[trigger] r@[i] {
                Some(name) => displaced(obj::views(symbols@), i) && name@ == new_name(
                    obj::views(symbols@),
                    i,
                ),
                None => !displaced(obj::views(symbols@), i),
            }),
{
    let ghost syms = obj::views(symbols@);
    let sorted = sorted_definitions(symbols);
    let mut reserved = spelling_set(symbols);
    let ghost taken = spellings(syms);
    let ghost mut keys: Seq<DefinitionKey> = Seq::empty();
    let mut r: Vec<Option<String>> = Vec::new();
    let mut i: usize = 0;
    while i < symbols.len()
        invariant
            i <= symbols.len(),
            r.len() == i,
            forall|k: int| 0 <= k < i ==> (#[trigger] r@[k]) is None,
        decreases symbols.len() - i,
    {
        r.push(None);
        i = i + 1;
    }
    assert(reserved@ =~= taken.union(new_names(keys, taken).to_set()));
    let mut p: usize = 0;
    while p < sorted.len()
        invariant
            p <= sorted.len(),
            syms == obj::views(symbols@),
            is_definition_order(syms, sorted@),
            r.len() == symbols.len(),
            taken == spellings(syms),
            reserved@ == taken.union(new_names(keys, taken).to_set()),
            reserved@.finite(),
            order::strictly_sorted(keys, |a: DefinitionKey, b: DefinitionKey| key_lt(a, b)),
            forall|m: int|
                0 <= m < keys.len() ==> exists|q: int|
                    0 <= q < p && displaced(syms, #[trigger] sorted@[q] as int) && key(
                        syms[sorted@[q] as int],
                    ) == #[trigger] keys[m],
            forall|q: int|
                0 <= q < p ==> (match r@[#[trigger] sorted@[q] as int] {
                    Some(name) => displaced(syms, sorted@[q] as int) && keys.contains(
                        key(syms[sorted@[q] as int]),
                    ) && name@ == new_names(keys, taken)[keys.index_of(
                        key(syms[sorted@[q] as int]),
                    )],
                    None => !displaced(syms, sorted@[q] as int),
                }),
            forall|k: int|
                0 <= k < r.len() && (#[trigger] r@[k]) is Some ==> exists|q: int|
                    0 <= q < p && #[trigger] sorted@[q] == k,
        decreases sorted.len() - p,
    {
        let index: usize = sorted[p];
        let symbol = &symbols[index];
        assert(syms[index as int] == symbol@);
        let ghost k = key(symbol@);
        let ghost names = new_names(keys, taken);
        let ghost before = r@;
        proof {
            lemma_displaced_at(syms, sorted@, p as int);
            lemma_new_names_len(keys, taken);
            if p > 0 {
                assert(key_le(key(syms[sorted@[p - 1] as int]), k));
            }
        }
        if p > 0 && symbols[sorted[p - 1]].name == symbol.name {
            let previous = &symbols[sorted[p - 1]];
            assert(syms[sorted@[p - 1] as int] == previous@);
            if previous.address == symbol.address {
                let name = match &r[sorted[p - 1]] {
                    Some(name) => Some(name.clone()),
                    None => None,
                };
                assert(key(syms[sorted@[p - 1] as int]) == k);
                r.set(index, name);
            } else {
                let mut qualified = symbol.name.clone();
                proof {
                    reveal_strlit("_");
                }
                qualified.append("_");
                text::push_hex8(&mut qualified, symbol.address);
                assert(qualified@ =~= stem(k));
                let unique = free_spelling(&qualified, &reserved);
                let _ = reserved.insert(unique.clone());
                let ghost chosen = unique@;
                r.set(index, Some(unique));
                proof {
                    let lt = |a: DefinitionKey, b: DefinitionKey| key_lt(a, b);
                    let longer = keys.push(k);
                    assert(longer.drop_last() =~= keys);
                    assert(new_names(longer, taken) == names.push(chosen));
                    assert forall|m: int| 0 <= m < keys.len() implies key_lt(#[trigger] keys[m], k) by {
                        let q = choose|q: int|
                            0 <= q < p && displaced(syms, #[trigger] sorted@[q] as int) && key(
                                syms[sorted@[q] as int],
                            ) == keys[m];
                        if q < p - 1 {
                            assert(key_le(key(syms[sorted@[q] as int]), key(syms[sorted@[p - 1] as int])));
                        } else {
                            lemma_key_le_total(keys[m], keys[m]);
                        }
                        lemma_key_lt_le(keys[m], key(syms[sorted@[p - 1] as int]), k);
                    }
                    assert forall|a: int, b: int|
                        #![trigger longer[a], longer[b]]
                        0 <= a < b < longer.len() implies lt(longer[a], longer[b]) by {
                        if b < keys.len() {
                            assert(lt(keys[a], keys[b]));
                        } else {
                            assert(key_lt(keys[a], k));
                        }
                    }
                    lemma_longer_keys(keys, k);
                    assert(reserved@ =~= taken.union(names.push(chosen).to_set())) by {
                        lemma_push_set(names, chosen);
                    }
                    assert forall|m: int| 0 <= m < longer.len() implies exists|q: int|
                        0 <= q < p + 1 && displaced(syms, #[trigger] sorted@[q] as int) && key(
                            syms[sorted@[q] as int],
                        ) == #[trigger] longer[m] by {
                        if m < keys.len() {
                            assert(longer[m] == keys[m]);
                        } else {
                            assert(displaced(syms, sorted@[p as int] as int));
                        }
                    }
                    assert forall|q: int| 0 <= q < p implies (match r@[#[trigger] sorted@[q] as int] {
                        Some(name) => displaced(syms, sorted@[q] as int) && longer.contains(
                            key(syms[sorted@[q] as int]),
                        ) && name@ == new_names(longer, taken)[longer.index_of(
                            key(syms[sorted@[q] as int]),
                        )],
                        None => !displaced(syms, sorted@[q] as int),
                    }) by {
                        assert(sorted@[q] != sorted@[p as int]);
                        assert(r@[sorted@[q] as int] == before[sorted@[q] as int]);
                    }
                    keys = longer;
                }
            }
        }
        proof {
            assert forall|q: int| 0 <= q < p implies r@[#[trigger] sorted@[q] as int]
                == before[sorted@[q] as int] by {
                assert(sorted@[q] != sorted@[p as int]);
            }
            if !displaced(syms, index as int) {
                assert(before[index as int] is None) by {
                    if before[index as int] is Some {
                        let q = choose|q: int| 0 <= q < p && #[trigger] sorted@[q] == index;
                        assert(sorted@[q] != sorted@[p as int]);
                    }
                }
            }
            assert forall|j: int| 0 <= j < r.len() && (#[trigger] r@[j]) is Some implies exists|q: int|
                0 <= q < p + 1 && #[trigger] sorted@[q] == j by {
                if j == index {
                    assert(sorted@[p as int] == j);
                } else {
                    assert(r@[j] == before[j]);
                }
            }
        }
        p = p + 1;
    }
    proof {
        assert forall|k: DefinitionKey| #[trigger]
            keys.contains(k) <==> exists|i: int|
                0 <= i < syms.len() && #[trigger] displaced(syms, i) && key(syms[i]) == k by {
            if exists|i: int| 0 <= i < syms.len() && #[trigger] displaced(syms, i) && key(syms[i]) == k {
                let i = choose|i: int|
                    0 <= i < syms.len() && #[trigger] displaced(syms, i) && key(syms[i]) == k;
                assert(is_definition(syms[i]));
                assert(listed(sorted@, i));
                let q = choose|q: int| 0 <= q < sorted.len() && sorted@[q] == i;
                assert(r@[sorted@[q] as int] is Some);
            }
            if keys.contains(k) {
                let m = choose|m: int| 0 <= m < keys.len() && keys[m] == k;
                let q = choose|q: int|
                    0 <= q < p && displaced(syms, #[trigger] sorted@[q] as int) && key(
                        syms[sorted@[q] as int],
                    ) == keys[m];
                assert(displaced(syms, sorted@[q] as int));
            }
        }
        assert(is_rename_order(syms, keys));
        lemma_rename_order(syms);
        lemma_rename_order_unique(syms, keys, rename_order(syms));
        assert forall|i: int| 0 <= i < r.len() implies (match #[trigger] r@[i] {
            Some(name) => displaced(syms, i) && name@ == new_name(syms, i),
            None => !displaced(syms, i),
        }) by {
            if r@[i] is Some {
                let q = choose|q: int| 0 <= q < p && #[trigger] sorted@[q] == i;
                assert(r@[sorted@[q] as int] is Some);
            } else if displaced(syms, i) {
                assert(is_definition(syms[i]));
                assert(listed(sorted@, i));
                let q = choose|q: int| 0 <= q < sorted.len() && sorted@[q] == i;
                assert(r@[sorted@[q] as int] is None);
            }
        }
    }
    r
}

proof fn lemma_push_set(s: Seq<Seq<char>>, x: Seq<char>)
    ensures
        s.push(x).to_set() == s.to_set().insert(x),
{
    let after = s.push(x);
    assert forall|e: Seq<char>| after.to_set().contains(e) <==> s.to_set().insert(x).contains(e) by {
        if s.contains(e) {
            let i = choose|i: int| 0 <= i < s.len() && s[i] == e;
            assert(after[i] == e);
        }
        assert(after[s.len() as int] == x);
        if after.contains(e) {
            let i = choose|i: int| 0 <= i < after.len() && after[i] == e;
            if i < s.len() {
                assert(s[i] == e);
            }
        }
    }
    assert(after.to_set() =~= s.to_set().insert(x));
}

proof fn lemma_longer_keys(keys: Seq<DefinitionKey>, k: DefinitionKey)
    requires
        forall|m: int| 0 <= m < keys.len() ==> key_lt(#[trigger] keys[m], k),
        order::strictly_sorted(keys, |a: DefinitionKey, b: DefinitionKey| key_lt(a, b)),
    ensures
        keys.push(k).contains(k),
        keys.push(k).index_of(k) == keys.len(),
        forall|e: DefinitionKey| #[trigger]
            keys.contains(e) ==> keys.push(k).contains(e) && keys.push(k).index_of(e)
                == keys.index_of(e),
{
    let longer = keys.push(k);
    assert(longer[keys.len() as int] == k);
    let at = longer.index_of(k);
    assert(0 <= at < longer.len() && longer[at] == k);
    assert forall|e: DefinitionKey| #[trigger] keys.contains(e) implies longer.contains(e)
        && longer.index_of(e) == keys.index_of(e) by {
        let i = keys.index_of(e);
        assert(0 <= i < keys.len() && keys[i] == e);
        assert(longer[i] == e);
        let j = longer.index_of(e);
        assert(0 <= j < longer.len() && longer[j] == e);
        let lt = |a: DefinitionKey, b: DefinitionKey| key_lt(a, b);
        if j == keys.len() {
            assert(key_lt(keys[i], k));
        } else if i < j {
            assert(lt(keys[i], keys[j]));
        } else if j < i {
            assert(lt(keys[j], keys[i]));
        }
    }
}

} // verus!

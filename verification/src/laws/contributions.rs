//! Laws of single contributions: their names, bytes, relocations and zero fill.
use crate::contribution;
use crate::obj;
use crate::obj::{ObjModel, ObjReloc, ObjSectionKind, SectionModel};
use crate::outcome;
use crate::text;
use crate::tokens;
use crate::zero_fill;
use vstd::prelude::*;

verus! {

/// How many numbers `n` hexadecimal digits spell.
spec fn hex_limit(n: nat) -> nat
    decreases n,
{
    if n == 0 {
        1
    } else {
        16 * hex_limit((n - 1) as nat)
    }
}

proof fn lemma_text_le_prefix(p: Seq<char>, a: Seq<char>, b: Seq<char>)
    ensures
        text::text_le(p + a, p + b) == text::text_le(a, b),
    decreases p.len(),
{
    if p.len() == 0 {
        assert(p + a =~= a);
        assert(p + b =~= b);
    } else {
        assert((p + a)[0] == p[0] && (p + b)[0] == p[0]);
        assert((p + a).drop_first() =~= p.drop_first() + a);
        assert((p + b).drop_first() =~= p.drop_first() + b);
        lemma_text_le_prefix(p.drop_first(), a, b);
    }
}

proof fn lemma_text_le_push(a: Seq<char>, b: Seq<char>, c: char, d: char)
    requires
        a.len() == b.len(),
    ensures
        text::text_le(a.push(c), b.push(d)) == (if a == b {
            c as int <= d as int
        } else {
            text::text_le(a, b)
        }),
    decreases a.len(),
{
    reveal_with_fuel(text::text_le, 2);
    if a.len() == 0 {
        assert(a =~= b);
        assert(a.push(c)[0] == c && b.push(d)[0] == d);
        assert(a.push(c).drop_first() =~= Seq::<char>::empty());
    } else {
        assert(a.push(c)[0] == a[0] && b.push(d)[0] == b[0]);
        assert(a.push(c).drop_first() =~= a.drop_first().push(c));
        assert(b.push(d).drop_first() =~= b.drop_first().push(d));
        lemma_text_le_push(a.drop_first(), b.drop_first(), c, d);
        if a[0] == b[0] {
            if a.drop_first() == b.drop_first() {
                assert(a =~= b) by {
                    assert forall|i: int| 0 <= i < a.len() implies a[i] == b[i] by {
                        if i > 0 {
                            assert(a.drop_first()[i - 1] == b.drop_first()[i - 1]);
                        }
                    }
                }
            }
        }
    }
}

proof fn lemma_hex_order(a: nat, b: nat, n: nat)
    requires
        a < hex_limit(n),
        b < hex_limit(n),
    ensures
        text::text_le(text::hex_digits(a, n), text::hex_digits(b, n)) <==> a <= b,
        text::hex_digits(a, n) == text::hex_digits(b, n) <==> a == b,
    decreases n,
{
    if n > 0 {
        let m = (n - 1) as nat;
        lemma_hex_order(a / 16, b / 16, m);
        text::lemma_hex_digits_len(a / 16, m);
        text::lemma_hex_digits_len(b / 16, m);
        let x = text::hex_digits(a / 16, m);
        let y = text::hex_digits(b / 16, m);
        let c = text::digit_char((a % 16) as int);
        let d = text::digit_char((b % 16) as int);
        lemma_text_le_push(x, y, c, d);
        assert(x.push(c).drop_last() =~= x);
        assert(y.push(d).drop_last() =~= y);
        assert(x.push(c).last() == c && y.push(d).last() == d);
        assert(c as int <= d as int <==> a % 16 <= b % 16);
    }
}

/// Contributions to one section sort by name as they do by address.
pub proof fn law_names_sort_by_address(name: Seq<char>, a: u32, b: u32)
    ensures
        text::text_le(contribution::dollar_name(name, a), contribution::dollar_name(name, b)) <==> a
            <= b,
        contribution::dollar_name(name, a) == contribution::dollar_name(name, b) <==> a == b,
{
    reveal_with_fuel(hex_limit, 9);
    let p = name + seq!['$'];
    lemma_text_le_prefix(p, text::hex8(a), text::hex8(b));
    lemma_text_le_prefix(p, text::hex8(b), text::hex8(a));
    lemma_hex_order(a as nat, b as nat, 8);
    if contribution::dollar_name(name, a) == contribution::dollar_name(name, b) {
        assert(contribution::dollar_name(name, a).skip(p.len() as int) =~= text::hex8(a));
        assert(contribution::dollar_name(name, b).skip(p.len() as int) =~= text::hex8(b));
    }
}

/// The zero fill of a section sorts after all that is initialized of it.
pub proof fn law_zero_fill_sorts_last(name: Seq<char>, a: u32, b: u32)
    ensures
        text::text_le(
            contribution::dollar_name(name, a),
            contribution::dollar_name(name.push('z'), b),
        ),
        !text::text_le(
            contribution::dollar_name(name.push('z'), b),
            contribution::dollar_name(name, a),
        ),
{
    let x = seq!['$'] + text::hex8(a);
    let y = seq!['z', '$'] + text::hex8(b);
    assert(contribution::dollar_name(name, a) =~= name + x);
    assert(contribution::dollar_name(name.push('z'), b) =~= name + y);
    lemma_text_le_prefix(name, x, y);
    lemma_text_le_prefix(name, y, x);
    assert(x[0] == '$' && y[0] == 'z');
}

/// An opaque section sorts before contributions that carry its name and an address.
pub proof fn law_addressed_sorts_after_plain(name: Seq<char>, a: u32)
    ensures
        text::text_le(name, contribution::dollar_name(name, a)),
        !text::text_le(contribution::dollar_name(name, a), name),
{
    let x = seq!['$'] + text::hex8(a);
    let none = Seq::<char>::empty();
    assert(contribution::dollar_name(name, a) =~= name + x);
    assert(name + none =~= name);
    lemma_text_le_prefix(name, none, x);
    lemma_text_le_prefix(name, x, none);
}

/// A section that the image has original bytes for holds them, and keeps exactly the relocations
/// that stand on words that these bytes leave as they are.
pub proof fn law_tokens_are_restored(image: ObjModel, s: SectionModel, k: int)
    requires
        tokens::restorable_section(image, s),
        obj::ascending(s.relocations),
        obj::section_at(image.sections, s.virtual_address->0, 0) == Some(k),
        image.sections[k].original_data is Some,
    ensures
        tokens::restored_section(image, s) is Ok,
        ({
            let r = tokens::restored_section(image, s)->Ok_0;
            let data = image.sections[k].original_data->0;
            let from = s.virtual_address->0 - image.sections[k].address;
            &&& r.data.len() == s.size
            &&& forall|x: int| 0 <= x < s.size ==> #[trigger] r.data[x] == data[from + x]
            &&& forall|e: (u32, ObjReloc)|
                #![trigger r.relocations.contains(e)]
                r.relocations.contains(e) <==> s.relocations.contains(e) && tokens::same_word(
                    s.data,
                    r.data,
                    e.0,
                )
        }),
{
    tokens::lemma_section_at(image.sections, s.virtual_address->0, 0);
    let bytes = tokens::token_bytes(image.sections[k], s);
    let keep = tokens::untouched(s, bytes);
    outcome::lemma_selected(s.relocations, keep);
    let r = tokens::restored_section(image, s)->Ok_0;
    assert forall|e: (u32, ObjReloc)|
        #![trigger r.relocations.contains(e)]
        r.relocations.contains(e) <==> s.relocations.contains(e) && tokens::same_word(
            s.data,
            r.data,
            e.0,
        ) by {
        if r.relocations.contains(e) {
            let i = choose|i: int| 0 <= i < r.relocations.len() && r.relocations[i] == e;
            assert(outcome::is_kept(s.relocations, keep, r.relocations[i]));
        }
        if s.relocations.contains(e) && tokens::same_word(s.data, r.data, e.0) {
            let i = choose|i: int| 0 <= i < s.relocations.len() && s.relocations[i] == e;
            assert(keep[i]);
        }
    }
}

/// Separating zero fill keeps every address: what is initialized stays in its place with its bytes,
/// the zero fill follows it and holds no bytes, and the boundary is that of the image.
pub proof fn law_zero_fill_boundary(original: SectionModel, s: SectionModel)
    requires
        original.original_raw_size is Some,
        zero_fill::splittable_section(original, s),
        zero_fill::reaches_zero_fill(original, s),
        zero_fill::split_section(original, s) is Ok,
    ensures
        ({
            let (first, second) = zero_fill::split_section(original, s)->Ok_0;
            let start = s.virtual_address->0;
            &&& first.virtual_address == s.virtual_address
            &&& first.relocations == s.relocations
            &&& match second {
                None => {
                    &&& zero_fill::initialized_end(original) <= start
                    &&& first.size == s.size
                    &&& first.kind == ObjSectionKind::Bss
                    &&& first.data.len() == 0
                },
                Some(t) => {
                    &&& start + first.size == zero_fill::initialized_end(original)
                    &&& first.size + t.size == s.size
                    &&& first.size <= s.data.len() ==> first.data == s.data.take(first.size as int)
                    &&& first.kind == s.kind
                    &&& first.name == s.name
                    &&& first.original_flags == s.original_flags
                    &&& t.virtual_address == Some((start + first.size) as u32)
                    &&& t.kind == ObjSectionKind::Bss
                    &&& t.data.len() == 0
                    &&& t.relocations.len() == 0
                },
            }
        }),
{
}

/// The flags of zero fill say uninitialized in place of initialized, and are the same otherwise.
pub proof fn law_zero_fill_flags(flags: u32)
    ensures
        zero_fill::uninitialized_flags(Some(flags)) is Some,
        ({
            let r = zero_fill::uninitialized_flags(Some(flags))->0;
            &&& r & 0x40 == 0
            &&& r & 0x80 == 0x80
            &&& r & !0xC0u32 == flags & !0xC0u32
        }),
{
    let r: u32 = (flags & !0x40u32) | 0x80u32;
    assert(r & 0x40 == 0 && r & 0x80 == 0x80 && r & !0xC0u32 == flags & !0xC0u32) by (bit_vector)
        requires
            r == (flags & !0x40u32) | 0x80u32,
    ;
}

/// A contribution has the bytes, size, kind, flags and address of its section, and needs no
/// alignment. Its name carries the address, unless the linker knows the section by its name.
pub proof fn law_contribution_keeps_contents(image: ObjModel, o: ObjModel, index: int)
    requires
        0 <= index < o.sections.len(),
        o.sections[index].virtual_address is Some,
    ensures
        contribution::finished_section(image, o, index) is Ok,
        ({
            let s = o.sections[index];
            let r = contribution::finished_section(image, o, index)->Ok_0;
            &&& r.data == s.data
            &&& r.size == s.size
            &&& r.kind == s.kind
            &&& r.original_flags == s.original_flags
            &&& r.virtual_address == s.virtual_address
            &&& r.align == 1
            &&& !contribution::is_opaque(s.name) ==> r.name == contribution::dollar_name(
                s.name,
                s.virtual_address->0,
            )
        }),
{
    reveal_strlit(".reloc");
}

/// The relocations of a contribution are those of its section that are no branches within it, and
/// none where the linker knows the section by its name. So a branch that is resolved stays so.
pub proof fn law_contribution_relocations(image: ObjModel, o: ObjModel, index: int)
    requires
        0 <= index < o.sections.len(),
        o.sections[index].virtual_address is Some,
        obj::ascending(o.sections[index].relocations),
    ensures
        ({
            let s = o.sections[index];
            let r = contribution::finished_section(image, o, index)->Ok_0;
            &&& obj::ascending(r.relocations)
            &&& forall|e: (u32, ObjReloc)|
                #![trigger r.relocations.contains(e)]
                r.relocations.contains(e) <==> s.relocations.contains(e)
                    && !contribution::is_opaque(s.name) && !contribution::is_local_branch(
                    o.symbols,
                    index,
                    s.size,
                    e.1,
                )
        }),
{
    let s = o.sections[index];
    let r = contribution::finished_section(image, o, index)->Ok_0;
    let keep = contribution::open_relocations(o.symbols, index, s);
    outcome::lemma_selected(s.relocations, keep);
    if !contribution::is_opaque(s.name) {
        assert forall|e: (u32, ObjReloc)|
            #![trigger r.relocations.contains(e)]
            r.relocations.contains(e) <==> s.relocations.contains(e)
                && !contribution::is_local_branch(o.symbols, index, s.size, e.1) by {
            if r.relocations.contains(e) {
                let i = choose|i: int| 0 <= i < r.relocations.len() && r.relocations[i] == e;
                assert(outcome::is_kept(s.relocations, keep, r.relocations[i]));
            }
            if s.relocations.contains(e) && !contribution::is_local_branch(
                o.symbols,
                index,
                s.size,
                e.1,
            ) {
                let i = choose|i: int| 0 <= i < s.relocations.len() && s.relocations[i] == e;
                assert(keep[i]);
            }
        }
    }
}

} // verus!

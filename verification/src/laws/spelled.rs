//! Spellings, character by character.
use crate::text;
use vstd::prelude::*;

verus! {

/// The character for a digit: `0` to `9`, then `A` on.
pub open spec fn digit(d: int) -> char {
    if d < 10 {
        (48 + d) as char
    } else {
        (55 + d) as char
    }
}

/// The eight hexadecimal digits of an address.
pub open spec fn address_text(v: u32) -> Seq<char> {
    seq![
        digit(v as int / 0x1000_0000 % 16),
        digit(v as int / 0x100_0000 % 16),
        digit(v as int / 0x10_0000 % 16),
        digit(v as int / 0x1_0000 % 16),
        digit(v as int / 0x1000 % 16),
        digit(v as int / 0x100 % 16),
        digit(v as int / 0x10 % 16),
        digit(v as int % 16),
    ]
}

/// The decimal digits of a number, without zeros before it.
pub open spec fn count_text(n: nat) -> Seq<char>
    decreases n,
{
    if n < 10 {
        seq![digit(n as int)]
    } else {
        count_text(n / 10).push(digit(n as int % 10))
    }
}

/// What decimal digits spell.
pub open spec fn value(s: Seq<char>) -> int
    decreases s.len(),
{
    if s.len() == 0 {
        0
    } else {
        value(s.drop_last()) * 10 + (s.last() as int - 48)
    }
}

/// Whether a text is made of decimal digits, at least one, and fits 32 bits.
pub open spec fn is_number(s: Seq<char>) -> bool {
    &&& s.len() > 0
    &&& forall|i: int| 0 <= i < s.len() ==> 48 <= #[trigger] s[i] as int <= 57
    &&& value(s) <= 0xFFFF_FFFF
}

/// Whether a text is such a number, or one behind a plus sign.
pub open spec fn is_numeral(s: Seq<char>) -> bool {
    is_number(s) || (s.len() > 0 && s[0] as int == 43 && is_number(s.skip(1)))
}

/// Whether `a` comes before `b`, or is the same: as its beginning, or by the first character in
/// which they differ.
pub open spec fn sorts_first(a: Seq<char>, b: Seq<char>) -> bool {
    ||| a.len() <= b.len() && forall|k: int| 0 <= k < a.len() ==> #[trigger] a[k] == b[k]
    ||| exists|i: int| #[trigger] differs_at(a, b, i)
}

/// Whether `i` is the first place in which `a` and `b` differ, and `a` has the lower character.
pub open spec fn differs_at(a: Seq<char>, b: Seq<char>, i: int) -> bool {
    &&& 0 <= i < a.len()
    &&& i < b.len()
    &&& forall|k: int| 0 <= k < i ==> #[trigger] a[k] == b[k]
    &&& (a[i] as int) < (b[i] as int)
}

/// An address is spelled by its eight digits.
pub proof fn law_address_spelling(v: u32)
    ensures
        text::hex8(v) == address_text(v),
{
    reveal_with_fuel(text::hex_digits, 9);
    let n = v as nat;
    assert(n / 16 / 16 == n / 0x100);
    assert(n / 0x100 / 16 == n / 0x1000);
    assert(n / 0x1000 / 16 == n / 0x1_0000);
    assert(n / 0x1_0000 / 16 == n / 0x10_0000);
    assert(n / 0x10_0000 / 16 == n / 0x100_0000);
    assert(n / 0x100_0000 / 16 == n / 0x1000_0000);
    assert(text::hex8(v) =~= address_text(v));
}

/// A number is spelled by its decimal digits.
pub proof fn law_count_spelling(n: nat)
    ensures
        text::decimal(n) == count_text(n),
    decreases n,
{
    if n >= 10 {
        law_count_spelling(n / 10);
    }
    assert(text::decimal(n) =~= count_text(n));
}

proof fn lemma_value(s: Seq<char>)
    requires
        forall|i: int| 0 <= i < s.len() ==> 48 <= #[trigger] s[i] as int <= 57,
    ensures
        value(s) == text::decimal_value(s),
    decreases s.len(),
{
    if s.len() > 0 {
        assert forall|i: int| 0 <= i < s.drop_last().len() implies 48
            <= #[trigger] s.drop_last()[i] as int <= 57 by {
            assert(s.drop_last()[i] == s[i]);
        }
        lemma_value(s.drop_last());
        assert(s.last() == s[s.len() - 1]);
    }
}

/// What counts as a number behind a name: digits that fit 32 bits, perhaps behind a plus sign.
pub proof fn law_numerals(s: Seq<char>)
    ensures
        text::is_u32_text(s) <==> is_numeral(s),
{
    let rest = s.skip(1);
    if forall|i: int| 0 <= i < s.len() ==> 48 <= #[trigger] s[i] as int <= 57 {
        lemma_value(s);
    }
    if forall|i: int| 0 <= i < rest.len() ==> 48 <= #[trigger] rest[i] as int <= 57 {
        lemma_value(rest);
    }
    if text::is_u32_text(s) {
        let digits = text::unsigned_part(s);
        assert forall|i: int| 0 <= i < digits.len() implies 48 <= #[trigger] digits[i] as int
            <= 57 by {
            assert(text::is_decimal_digit(digits[i]));
        }
    }
    if is_number(s) {
        assert(48 <= s[0] as int <= 57);
    }
}

/// Names sort by the first character in which they differ, and a beginning before what extends it.
pub proof fn law_name_order(a: Seq<char>, b: Seq<char>)
    ensures
        text::text_le(a, b) <==> sorts_first(a, b),
    decreases a.len(),
{
    if a.len() > 0 && b.len() > 0 {
        let x = a.drop_first();
        let y = b.drop_first();
        if a[0] == b[0] {
            law_name_order(x, y);
            if sorts_first(x, y) {
                if x.len() <= y.len() && forall|k: int| 0 <= k < x.len() ==> #[trigger] x[k] == y[k] {
                    assert forall|k: int| 0 <= k < a.len() implies #[trigger] a[k] == b[k] by {
                        if k > 0 {
                            assert(x[k - 1] == y[k - 1]);
                        }
                    }
                } else {
                    let i = choose|i: int| #[trigger] differs_at(x, y, i);
                    assert forall|k: int| 0 <= k < i + 1 implies #[trigger] a[k] == b[k] by {
                        if k > 0 {
                            assert(x[k - 1] == y[k - 1]);
                        }
                    }
                    assert(differs_at(a, b, i + 1));
                }
            }
            if sorts_first(a, b) {
                if a.len() <= b.len() && forall|k: int| 0 <= k < a.len() ==> #[trigger] a[k] == b[k] {
                    assert forall|k: int| 0 <= k < x.len() implies #[trigger] x[k] == y[k] by {
                        assert(a[k + 1] == b[k + 1]);
                    }
                } else {
                    let i = choose|i: int| #[trigger] differs_at(a, b, i);
                    assert forall|k: int| 0 <= k < i - 1 implies #[trigger] x[k] == y[k] by {
                        assert(a[k + 1] == b[k + 1]);
                    }
                    assert(differs_at(x, y, i - 1));
                }
            }
        } else {
            if (a[0] as int) < (b[0] as int) {
                assert(differs_at(a, b, 0));
            }
            if sorts_first(a, b) && exists|i: int| #[trigger] differs_at(a, b, i) {
                let i = choose|i: int| #[trigger] differs_at(a, b, i);
                if i > 0 {
                    assert(a[0] == b[0]);
                }
            }
        }
    }
}

} // verus!

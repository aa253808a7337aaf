//! Text over character sequences: the spellings of numbers and addresses, and the order of names.
use vstd::prelude::*;
use vstd::string::StringExecFns;

verus! {

/// The upper-case hexadecimal digit for `d`, which is below 16.
pub open spec fn digit_char(d: int) -> char {
    if d < 10 {
        ('0' as int + d) as char
    } else {
        ('A' as int + d - 10) as char
    }
}

/// The last `n` hexadecimal digits of `v`, most significant first.
pub open spec fn hex_digits(v: nat, n: nat) -> Seq<char>
    decreases n,
{
    if n == 0 {
        Seq::empty()
    } else {
        hex_digits(v / 16, (n - 1) as nat).push(digit_char((v % 16) as int))
    }
}

/// An address as eight upper-case hexadecimal digits.
pub open spec fn hex8(v: u32) -> Seq<char> {
    hex_digits(v as nat, 8)
}

/// The decimal spelling of `v`, without leading zeros.
pub open spec fn decimal(v: nat) -> Seq<char>
    decreases v,
{
    if v < 10 {
        seq![digit_char(v as int)]
    } else {
        decimal(v / 10).push(digit_char((v % 10) as int))
    }
}

pub open spec fn is_decimal_digit(c: char) -> bool {
    '0' as int <= c as int <= '9' as int
}

/// The number that a sequence of decimal digits spells.
pub open spec fn decimal_value(s: Seq<char>) -> nat
    decreases s.len(),
{
    if s.len() == 0 {
        0
    } else {
        decimal_value(s.drop_last()) * 10 + (s.last() as int - '0' as int) as nat
    }
}

/// The text after an optional leading plus sign.
pub open spec fn unsigned_part(s: Seq<char>) -> Seq<char> {
    if s.len() > 0 && s[0] == '+' {
        s.skip(1)
    } else {
        s
    }
}

/// Whether `s` is a `u32` in decimal: an optional plus sign, then at least one digit and nothing
/// else, with a value that fits.
pub open spec fn is_u32_text(s: Seq<char>) -> bool {
    let digits = unsigned_part(s);
    &&& digits.len() > 0
    &&& forall|i: int| 0 <= i < digits.len() ==> is_decimal_digit(#[trigger] digits[i])
    &&& decimal_value(digits) <= u32::MAX
}

pub open spec fn has_suffix(s: Seq<char>, suffix: Seq<char>) -> bool {
    suffix.len() <= s.len() && s.skip(s.len() - suffix.len()) == suffix
}

pub open spec fn has_prefix(s: Seq<char>, prefix: Seq<char>) -> bool {
    prefix.len() <= s.len() && s.take(prefix.len() as int) == prefix
}

/// The position of the last occurrence of `c` in `s`.
pub open spec fn last_position(s: Seq<char>, c: char) -> Option<int>
    decreases s.len(),
{
    if s.len() == 0 {
        None
    } else if s.last() == c {
        Some(s.len() - 1)
    } else {
        last_position(s.drop_last(), c)
    }
}

/// The order of texts by their code points, a prefix before what extends it.
pub open spec fn text_le(a: Seq<char>, b: Seq<char>) -> bool
    decreases a.len(),
{
    if a.len() == 0 {
        true
    } else if b.len() == 0 {
        false
    } else if a[0] == b[0] {
        text_le(a.drop_first(), b.drop_first())
    } else {
        (a[0] as int) < (b[0] as int)
    }
}

pub proof fn lemma_text_le_total(a: Seq<char>, b: Seq<char>)
    ensures
        text_le(a, b) || text_le(b, a),
    decreases a.len(),
{
    if a.len() > 0 && b.len() > 0 && a[0] == b[0] {
        lemma_text_le_total(a.drop_first(), b.drop_first());
    }
}

pub proof fn lemma_text_le_antisymmetric(a: Seq<char>, b: Seq<char>)
    requires
        text_le(a, b),
        text_le(b, a),
    ensures
        a == b,
    decreases a.len(),
{
    if a.len() > 0 && b.len() > 0 {
        assert(a[0] == b[0]);
        lemma_text_le_antisymmetric(a.drop_first(), b.drop_first());
        assert forall|i: int| 0 <= i < a.len() implies a[i] == b[i] by {
            if i > 0 {
                assert(a.drop_first()[i - 1] == b.drop_first()[i - 1]);
            }
        }
        assert(a.drop_first().len() == b.drop_first().len());
        assert(a =~= b);
    } else {
        assert(a =~= b);
    }
}

pub proof fn lemma_text_le_transitive(a: Seq<char>, b: Seq<char>, c: Seq<char>)
    requires
        text_le(a, b),
        text_le(b, c),
    ensures
        text_le(a, c),
    decreases a.len(),
{
    if a.len() > 0 && b.len() > 0 && c.len() > 0 && a[0] == b[0] && b[0] == c[0] {
        lemma_text_le_transitive(a.drop_first(), b.drop_first(), c.drop_first());
    }
}

pub proof fn lemma_hex_digits_len(v: nat, n: nat)
    ensures
        hex_digits(v, n).len() == n,
    decreases n,
{
    if n > 0 {
        lemma_hex_digits_len(v / 16, (n - 1) as nat);
    }
}

pub open spec fn is_hex_digit(c: char) -> bool {
    is_decimal_digit(c) || 'A' as int <= c as int <= 'F' as int
}

pub proof fn lemma_hex_digit_chars(v: nat, n: nat)
    ensures
        forall|i: int|
            0 <= i < hex_digits(v, n).len() ==> is_hex_digit(#[trigger] hex_digits(v, n)[i]),
    decreases n,
{
    if n > 0 {
        lemma_hex_digit_chars(v / 16, (n - 1) as nat);
        let rest = hex_digits(v / 16, (n - 1) as nat);
        assert forall|i: int| 0 <= i < hex_digits(v, n).len() implies is_hex_digit(
            #[trigger] hex_digits(v, n)[i],
        ) by {
            if i < rest.len() {
                assert(hex_digits(v, n)[i] == rest[i]);
            }
        }
    }
}

/// What follows the last occurrence of `c` holds none.
pub proof fn lemma_last_position(s: Seq<char>, c: char, t: Seq<char>)
    requires
        forall|i: int| 0 <= i < t.len() ==> #[trigger] t[i] != c,
    ensures
        last_position(s + seq![c] + t, c) == Some(s.len() as int),
    decreases t.len(),
{
    let all = s + seq![c] + t;
    if t.len() > 0 {
        assert(all.last() == t.last());
        assert(all.drop_last() =~= s + seq![c] + t.drop_last());
        lemma_last_position(s, c, t.drop_last());
    }
}

proof fn lemma_decimal_value_prefix(s: Seq<char>, n: int)
    requires
        0 <= n <= s.len(),
        forall|i: int| 0 <= i < s.len() ==> is_decimal_digit(#[trigger] s[i]),
    ensures
        decimal_value(s.take(n)) <= decimal_value(s),
    decreases s.len() - n,
{
    if n < s.len() {
        lemma_decimal_value_prefix(s, n + 1);
        assert(s.take(n + 1).drop_last() =~= s.take(n));
        assert(s.take(n + 1).last() == s[n]);
    } else {
        assert(s.take(n) =~= s);
    }
}

/// The characters of a text.
pub fn chars_of(s: &str) -> (chars: Vec<char>)
    ensures
        chars@ == s@,
{
    let mut chars: Vec<char> = Vec::new();
    for c in iter: s.chars()
        invariant
            chars@ == s@.take(iter.index()),
            iter.seq() == s@,
    {
        chars.push(c);
    }
    assert(s@.take(s@.len() as int) =~= s@);
    chars
}

fn digit_text(d: u32) -> (s: &'static str)
    requires
        d < 16,
    ensures
        s@ == seq![digit_char(d as int)],
{
    proof {
        reveal_strlit("0");
        reveal_strlit("1");
        reveal_strlit("2");
        reveal_strlit("3");
        reveal_strlit("4");
        reveal_strlit("5");
        reveal_strlit("6");
        reveal_strlit("7");
        reveal_strlit("8");
        reveal_strlit("9");
        reveal_strlit("A");
        reveal_strlit("B");
        reveal_strlit("C");
        reveal_strlit("D");
        reveal_strlit("E");
        reveal_strlit("F");
    }
    let s: &'static str = match d {
        0 => "0",
        1 => "1",
        2 => "2",
        3 => "3",
        4 => "4",
        5 => "5",
        6 => "6",
        7 => "7",
        8 => "8",
        9 => "9",
        10 => "A",
        11 => "B",
        12 => "C",
        13 => "D",
        14 => "E",
        _ => "F",
    };
    assert(s@ =~= seq![digit_char(d as int)]);
    s
}

fn push_hex_digits(s: &mut String, v: u32, n: u32)
    ensures
        final(s)@ == old(s)@ + hex_digits(v as nat, n as nat),
    decreases n,
{
    if n > 0 {
        push_hex_digits(s, v / 16, n - 1);
        s.append(digit_text(v % 16));
        proof {
            reveal_with_fuel(hex_digits, 2);
        }
    }
    assert(s@ =~= old(s)@ + hex_digits(v as nat, n as nat));
}

/// Appends an address as eight upper-case hexadecimal digits.
pub fn push_hex8(s: &mut String, v: u32)
    ensures
        final(s)@ == old(s)@ + hex8(v),
{
    push_hex_digits(s, v, 8);
}

/// Appends the decimal spelling of a number.
pub fn push_decimal(s: &mut String, v: usize)
    ensures
        final(s)@ == old(s)@ + decimal(v as nat),
    decreases v,
{
    if v >= 10 {
        push_decimal(s, v / 10);
    }
    s.append(digit_text((v % 10) as u32));
    assert(s@ =~= old(s)@ + decimal(v as nat));
}

/// Whether the characters from `from` on are a `u32` in decimal.
pub fn is_u32_at(s: &Vec<char>, from: usize) -> (r: bool)
    requires
        from <= s.len(),
    ensures
        r == is_u32_text(s@.skip(from as int)),
{
    let ghost text = s@.skip(from as int);
    let ghost digits = unsigned_part(text);
    let start: usize = if from < s.len() && s[from] == '+' {
        from + 1
    } else {
        from
    };
    assert(digits =~= s@.skip(start as int));
    if start == s.len() {
        return false;
    }
    let mut value: u64 = 0;
    let mut i: usize = start;
    while i < s.len()
        invariant
            start <= i <= s.len(),
            digits == unsigned_part(text),
            text == s@.skip(from as int),
            digits == s@.skip(start as int),
            digits.len() > 0,
            forall|k: int| 0 <= k < i - start ==> is_decimal_digit(#[trigger] digits[k]),
            value == decimal_value(digits.take(i - start)),
            value <= u32::MAX,
        decreases s.len() - i,
    {
        let c: char = s[i];
        assert(digits[i - start] == c);
        if c < '0' || c > '9' {
            return false;
        }
        proof {
            assert(digits.take(i - start + 1).drop_last() =~= digits.take(i - start));
            assert(digits.take(i - start + 1).last() == c);
        }
        let next: u64 = value * 10 + ((c as u32) - ('0' as u32)) as u64;
        if next > u32::MAX as u64 {
            proof {
                if is_u32_text(text) {
                    lemma_decimal_value_prefix(digits, i - start + 1);
                }
            }
            return false;
        }
        value = next;
        i = i + 1;
    }
    assert(digits.take(s.len() - start) =~= digits);
    true
}

/// Whether `prefix` starts `s`.
pub fn starts_with(s: &Vec<char>, prefix: &str) -> (r: bool)
    ensures
        r == has_prefix(s@, prefix@),
{
    let head = chars_of(prefix);
    if head.len() > s.len() {
        return false;
    }
    let mut i: usize = 0;
    while i < head.len()
        invariant
            head@ == prefix@,
            i <= head.len() <= s.len(),
            s@.take(i as int) == head@.take(i as int),
        decreases head.len() - i,
    {
        if s[i] != head[i] {
            assert(s@.take(head.len() as int)[i as int] != prefix@[i as int]);
            return false;
        }
        assert(s@.take(i + 1) =~= s@.take(i as int).push(s@[i as int]));
        assert(head@.take(i + 1) =~= head@.take(i as int).push(head@[i as int]));
        i = i + 1;
    }
    assert(head@.take(head.len() as int) =~= prefix@);
    true
}

/// Whether `suffix` ends the first `n` characters of `s`.
pub fn ends_with(s: &Vec<char>, n: usize, suffix: &str) -> (r: bool)
    requires
        n <= s.len(),
    ensures
        r == has_suffix(s@.take(n as int), suffix@),
{
    let tail = chars_of(suffix);
    let ghost text = s@.take(n as int);
    if tail.len() > n {
        return false;
    }
    let base: usize = n - tail.len();
    let mut i: usize = 0;
    while i < tail.len()
        invariant
            tail@ == suffix@,
            text == s@.take(n as int),
            n <= s.len(),
            base + tail.len() == n,
            i <= tail.len(),
            text.skip(base as int).take(i as int) == tail@.take(i as int),
        decreases tail.len() - i,
    {
        if s[base + i] != tail[i] {
            assert(text.skip(base as int)[i as int] != suffix@[i as int]);
            return false;
        }
        assert(text.skip(base as int).take(i + 1) =~= text.skip(base as int).take(i as int).push(
            s@[base + i],
        ));
        assert(tail@.take(i + 1) =~= tail@.take(i as int).push(tail@[i as int]));
        i = i + 1;
    }
    assert(tail@.take(tail.len() as int) =~= suffix@);
    assert(text.skip(base as int).take(tail.len() as int) =~= text.skip(base as int));
    true
}

/// The position of the last occurrence of `c`.
pub fn find_last(s: &Vec<char>, c: char) -> (r: Option<usize>)
    ensures
        match r {
            Some(i) => last_position(s@, c) == Some(i as int) && i < s.len(),
            None => last_position(s@, c) is None,
        },
{
    let mut n: usize = s.len();
    assert(s@.take(n as int) =~= s@);
    while n > 0
        invariant
            n <= s.len(),
            last_position(s@.take(n as int), c) == last_position(s@, c),
        decreases n,
    {
        assert(s@.take(n as int).last() == s@[n - 1]);
        assert(s@.take(n as int).drop_last() =~= s@.take(n - 1));
        if s[n - 1] == c {
            return Some(n - 1);
        }
        n = n - 1;
    }
    None
}

/// Whether `a` is at most `b` in the order of texts.
pub fn text_at_most(a: &Vec<char>, b: &Vec<char>) -> (r: bool)
    ensures
        r == text_le(a@, b@),
{
    let mut i: usize = 0;
    assert(a@.skip(0) =~= a@);
    assert(b@.skip(0) =~= b@);
    while i < a.len() && i < b.len()
        invariant
            i <= a.len(),
            i <= b.len(),
            text_le(a@, b@) == text_le(a@.skip(i as int), b@.skip(i as int)),
        decreases a.len() - i,
    {
        if a[i] != b[i] {
            return a[i] < b[i];
        }
        assert(a@.skip(i as int).drop_first() =~= a@.skip(i + 1));
        assert(b@.skip(i as int).drop_first() =~= b@.skip(i + 1));
        i = i + 1;
    }
    i == a.len()
}

} // verus!

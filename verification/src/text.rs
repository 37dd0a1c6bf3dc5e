//! Characters, decimal numerals and the zero-padded index segments of property names.

use vstd::prelude::*;
use vstd::string::StringExecFns;

verus! {

/// The decimal digit character for `d`, for `d` below ten.
pub open spec fn digit_char(d: int) -> char {
    (48 + d) as char
}

/// Whether `c` is one of the ten decimal digit characters.
pub open spec fn is_digit(c: char) -> bool {
    48 <= c as int <= 57
}

/// The value of the decimal digit character `c`.
pub open spec fn digit_value(c: char) -> int {
    c as int - 48
}

/// The four-character, zero-padded decimal form of `n`, for `n` below 10000.
pub open spec fn pad4(n: int) -> Seq<char> {
    seq![
        digit_char(n / 1000 % 10),
        digit_char(n / 100 % 10),
        digit_char(n / 10 % 10),
        digit_char(n % 10),
    ]
}

/// The number that a segment of exactly four decimal digits denotes.
pub open spec fn parse_pad4(s: Seq<char>) -> Option<int> {
    if s.len() == 4 && is_digit(s[0]) && is_digit(s[1]) && is_digit(s[2]) && is_digit(s[3]) {
        Some(
            digit_value(s[0]) * 1000 + digit_value(s[1]) * 100 + digit_value(s[2]) * 10
                + digit_value(s[3]),
        )
    } else {
        None
    }
}

/// The decimal numeral of a natural number, without leading zeros.
pub open spec fn decimal(n: nat) -> Seq<char>
    decreases n,
{
    if n < 10 {
        seq![digit_char(n as int)]
    } else {
        decimal(n / 10).push(digit_char((n % 10) as int))
    }
}

/// The decimal numeral of an integer, with a leading minus sign when negative.
pub open spec fn signed_decimal(n: int) -> Seq<char> {
    if n < 0 {
        seq!['-'] + decimal((-n) as nat)
    } else {
        decimal(n as nat)
    }
}

/// A decimal numeral is not empty and holds digits only.
pub proof fn lemma_decimal_is_digits(n: nat)
    ensures
        decimal(n).len() >= 1,
        forall|i: int| 0 <= i < decimal(n).len() ==> is_digit(#[trigger] decimal(n)[i]),
    decreases n,
{
    if n >= 10 {
        lemma_decimal_is_digits(n / 10);
    }
}

/// Parsing a padded index gives the index back.
pub proof fn lemma_parse_pad4(n: int)
    requires
        0 <= n < 10000,
    ensures
        parse_pad4(pad4(n)) == Some(n),
        pad4(n).len() == 4,
{
    let a = n / 1000 % 10;
    let b = n / 100 % 10;
    let c = n / 10 % 10;
    let d = n % 10;
    lemma_digits_sum(n);
    let s = pad4(n);
    assert(s[0] == digit_char(a) && s[1] == digit_char(b) && s[2] == digit_char(c) && s[3]
        == digit_char(d));
    assert(digit_value(s[0]) == a && is_digit(s[0]));
    assert(digit_value(s[1]) == b && is_digit(s[1]));
    assert(digit_value(s[2]) == c && is_digit(s[2]));
    assert(digit_value(s[3]) == d && is_digit(s[3]));
}

proof fn lemma_digits_sum(n: int)
    requires
        0 <= n < 10000,
    ensures
        n == (n / 1000 % 10) * 1000 + (n / 100 % 10) * 100 + (n / 10 % 10) * 10 + n % 10,
        0 <= n / 1000 % 10 < 10,
        0 <= n / 100 % 10 < 10,
        0 <= n / 10 % 10 < 10,
        0 <= n % 10 < 10,
{
    let q1 = n / 10;
    let q2 = n / 100;
    let q3 = n / 1000;
    assert(n == q1 * 10 + n % 10);
    assert(q2 == q1 / 10);
    assert(q1 == q2 * 10 + q1 % 10);
    assert(q3 == q2 / 10);
    assert(q2 == q3 * 10 + q2 % 10);
    assert(q3 < 10);
}

proof fn lemma_four_digits(a: int, b: int, c: int, d: int)
    requires
        0 <= a < 10,
        0 <= b < 10,
        0 <= c < 10,
        0 <= d < 10,
    ensures
        (a * 1000 + b * 100 + c * 10 + d) / 1000 % 10 == a,
        (a * 1000 + b * 100 + c * 10 + d) / 100 % 10 == b,
        (a * 1000 + b * 100 + c * 10 + d) / 10 % 10 == c,
        (a * 1000 + b * 100 + c * 10 + d) % 10 == d,
{
    let n = a * 1000 + b * 100 + c * 10 + d;
    assert(n / 1000 == a);
    assert(n / 100 == a * 10 + b);
    assert(n / 10 == a * 100 + b * 10 + c);
}

/// A segment that parses as a padded index is the padded form of that index.
pub proof fn lemma_pad4_of_parse(s: Seq<char>)
    requires
        parse_pad4(s) is Some,
    ensures
        0 <= parse_pad4(s)->0 < 10000,
        pad4(parse_pad4(s)->0) == s,
{
    let a = digit_value(s[0]);
    let b = digit_value(s[1]);
    let c = digit_value(s[2]);
    let d = digit_value(s[3]);
    lemma_four_digits(a, b, c, d);
    let n = a * 1000 + b * 100 + c * 10 + d;
    assert(digit_char(a) == s[0]);
    assert(digit_char(b) == s[1]);
    assert(digit_char(c) == s[2]);
    assert(digit_char(d) == s[3]);
    assert(pad4(n) =~= s);
}

/// The one-character string of a decimal digit.
pub fn digit_str(d: u8) -> (s: &'static str)
    requires
        d < 10,
    ensures
        s@ == seq![digit_char(d as int)],
{
    proof {
        reveal_strlit("0");
        reveal_strlit("1");
        reveal_strlit("2");
        reveal_strlit("3");
        reveal_strlit("4");
        reveal_strlit("5");
        reveal_strlit("6");
        reveal_strlit("7");
        reveal_strlit("8");
        reveal_strlit("9");
    }
    let s = if d == 0 {
        "0"
    } else if d == 1 {
        "1"
    } else if d == 2 {
        "2"
    } else if d == 3 {
        "3"
    } else if d == 4 {
        "4"
    } else if d == 5 {
        "5"
    } else if d == 6 {
        "6"
    } else if d == 7 {
        "7"
    } else if d == 8 {
        "8"
    } else {
        "9"
    };
    assert(s@ =~= seq![digit_char(d as int)]);
    s
}

/// Appends the zero-padded, four-digit form of `n` to `out`.
pub fn push_pad4(out: &mut String, n: u16)
    requires
        n < 10000,
    ensures
        final(out)@ == old(out)@ + pad4(n as int),
{
    let a: u8 = (n / 1000 % 10) as u8;
    let b: u8 = (n / 100 % 10) as u8;
    let c: u8 = (n / 10 % 10) as u8;
    let d: u8 = (n % 10) as u8;
    out.append(digit_str(a));
    out.append(digit_str(b));
    out.append(digit_str(c));
    out.append(digit_str(d));
    assert(out@ =~= old(out)@ + pad4(n as int));
}

/// Appends the decimal numeral of `n` to `out`.
pub fn push_decimal(out: &mut String, n: u64)
    ensures
        final(out)@ == old(out)@ + decimal(n as nat),
    decreases n,
{
    if n >= 10 {
        push_decimal(out, n / 10);
    }
    let d: u8 = (n % 10) as u8;
    out.append(digit_str(d));
    assert(out@ =~= old(out)@ + decimal(n as nat));
}

/// Appends the decimal numeral of `n`, with its sign, to `out`.
pub fn push_signed_decimal(out: &mut String, n: i64)
    ensures
        final(out)@ == old(out)@ + signed_decimal(n as int),
{
    if n < 0 {
        proof {
            reveal_strlit("-");
        }
        out.append("-");
        let m: u64 = if n == i64::MIN {
            9223372036854775808u64
        } else {
            (-n) as u64
        };
        push_decimal(out, m);
        assert(out@ =~= old(out)@ + signed_decimal(n as int));
    } else {
        push_decimal(out, n as u64);
    }
}

/// The decimal numeral of `n` as a string.
pub fn decimal_string(n: u64) -> (s: String)
    ensures
        s@ == decimal(n as nat),
{
    let mut s = String::new();
    push_decimal(&mut s, n);
    assert(s@ =~= decimal(n as nat));
    s
}

/// The characters of a string, in order.
pub fn chars_of(s: &str) -> (v: Vec<char>)
    ensures
        v@ == s@,
{
    let mut v: Vec<char> = Vec::new();
    for c in it: s.chars()
        invariant
            v@ == it.seq().take(it.index() as int),
    {
        v.push(c);
    }
    v
}

/// The value of the decimal digit `c`, `None` when `c` is no digit.
pub fn digit_of(c: char) -> (d: Option<u8>)
    ensures
        d is Some <==> is_digit(c),
        d is Some ==> d->0 as int == digit_value(c),
{
    let code: u32 = c as u32;
    if 48 <= code && code <= 57 {
        Some((code - 48) as u8)
    } else {
        None
    }
}

/// Reads the four characters of `name` from `at` on as a padded index.
pub fn read_pad4(name: &Vec<char>, at: usize) -> (n: Option<u16>)
    requires
        at + 4 <= name@.len(),
    ensures
        n is Some <==> parse_pad4(name@.subrange(at as int, at + 4)) is Some,
        n is Some ==> n->0 as int == parse_pad4(name@.subrange(at as int, at + 4))->0,
{
    let len: usize = name.len();
    let ghost seg = name@.subrange(at as int, at + 4);
    assert(seg[0] == name@[at as int]);
    assert(seg[1] == name@[at + 1]);
    assert(seg[2] == name@[at + 2]);
    assert(seg[3] == name@[at + 3]);
    match (digit_of(name[at]), digit_of(name[at + 1]), digit_of(name[at + 2]), digit_of(name[at + 3])) {
        (Some(a), Some(b), Some(c), Some(d)) => {
            let a16: u16 = a as u16;
            let b16: u16 = b as u16;
            let c16: u16 = c as u16;
            let d16: u16 = d as u16;
            Some(a16 * 1000 + b16 * 100 + c16 * 10 + d16)
        },
        _ => None,
    }
}

/// Whether `pattern` stands in `name` at position `at`.
pub fn occurs_at(name: &Vec<char>, at: usize, pattern: &Vec<char>) -> (found: bool)
    requires
        at <= name@.len(),
    ensures
        found <==> (at + pattern@.len() <= name@.len() && name@.subrange(
            at as int,
            at + pattern@.len(),
        ) == pattern@),
{
    let len: usize = name.len();
    if pattern.len() > len - at {
        return false;
    }
    let mut i: usize = 0;
    while i < pattern.len()
        invariant
            at + pattern@.len() <= name@.len() == len,
            i <= pattern@.len(),
            forall|j: int| 0 <= j < i ==> name@[at + j] == pattern@[j],
        decreases pattern@.len() - i,
    {
        if name[at + i] != pattern[i] {
            assert(name@.subrange(at as int, at + pattern@.len())[i as int] != pattern@[i as int]);
            return false;
        }
        i += 1;
    }
    assert(name@.subrange(at as int, at + pattern@.len()) =~= pattern@);
    true
}

/// Whether the characters `chars` spell the string `literal`.
pub fn spells(chars: &Vec<char>, literal: &str) -> (same: bool)
    ensures
        same == (chars@ == literal@),
{
    let pattern: Vec<char> = chars_of(literal);
    if chars.len() != pattern.len() {
        return false;
    }
    let found: bool = occurs_at(chars, 0, &pattern);
    assert(chars@.subrange(0, chars@.len() as int) =~= chars@);
    found
}

/// Whether two strings hold the same characters.
pub fn same_text(a: &str, b: &str) -> (same: bool)
    ensures
        same == (a@ == b@),
{
    let chars: Vec<char> = chars_of(a);
    spells(&chars, b)
}

} // verus!

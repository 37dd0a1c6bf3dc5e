//! Field types: the recursive descriptor of a field's declared type, and its parser.

use vstd::prelude::*;
use vstd::string::{StrSliceExecFns, StringExecFns};
use crate::text::{
    chars_of, decimal, digit_of, digit_value, is_digit, lemma_decimal_is_digits, push_decimal,
};

verus! {

/// The type of a field: a base name, with an optional element type, pointer mark and
/// fixed array length.
#[derive(Debug)]
pub struct FieldType {
    pub base_name: String,
    pub generic: Option<Box<FieldType>>,
    pub array_size: Option<u32>,
    pub pointer: bool,
}

/// The mathematical model of a field type.
pub struct FieldTypeView {
    pub base_name: Seq<char>,
    pub generic: Option<Box<FieldTypeView>>,
    pub array_size: Option<u32>,
    pub pointer: bool,
}

/// Why a type string is no type.
#[derive(Debug)]
pub enum FieldTypeParseError {
    /// The string does not follow the grammar of types.
    Malformed(String),
}

/// The text of a type: the base name, then the element type between `< ` and ` >`, then
/// `*` for a pointer, then the array length in square brackets.
pub open spec fn type_text(t: FieldTypeView) -> Seq<char>
    decreases t,
{
    t.base_name + (match t.generic {
        Some(inner) => "< "@ + type_text(*inner) + " >"@,
        None => Seq::empty(),
    }) + (if t.pointer {
        "*"@
    } else {
        Seq::empty()
    }) + (match t.array_size {
        Some(n) => "["@ + decimal(n as nat) + "]"@,
        None => Seq::empty(),
    })
}

/// Whether `c` is white space, which is insignificant in a type string.
pub open spec fn is_space(c: char) -> bool {
    c == ' ' || c == '\t' || c == '\n' || c == '\r'
}

/// Whether `c` is one of the characters that delimit names in a type string.
pub open spec fn is_delimiter(c: char) -> bool {
    c == '<' || c == '>' || c == '*' || c == '[' || c == ']' || c == ','
}

/// The number of white space characters that stand in `s` from position `i` on.
pub open spec fn spaces_at(s: Seq<char>, i: int) -> nat
    decreases s.len() - i,
{
    if 0 <= i < s.len() && is_space(s[i]) {
        1 + spaces_at(s, i + 1)
    } else {
        0
    }
}

/// The number of characters of a name that stand in `s` from position `i` on: those up to
/// the next delimiter or white space.
pub open spec fn name_at(s: Seq<char>, i: int) -> nat
    decreases s.len() - i,
{
    if 0 <= i < s.len() && !is_space(s[i]) && !is_delimiter(s[i]) {
        1 + name_at(s, i + 1)
    } else {
        0
    }
}

/// The number of decimal digits that stand in `s` from position `i` on.
pub open spec fn digits_at(s: Seq<char>, i: int) -> nat
    decreases s.len() - i,
{
    if 0 <= i < s.len() && is_digit(s[i]) {
        1 + digits_at(s, i + 1)
    } else {
        0
    }
}

/// The number that the decimal digits of `s` from `from` up to `to` denote.
pub open spec fn number(s: Seq<char>, from: int, to: int) -> nat
    decreases to - from,
{
    if to <= from {
        0
    } else {
        (number(s, from, to - 1) * 10 + digit_value(s[to - 1])) as nat
    }
}

/// The type that stands in `s` at position `i`, with the position after it and the white
/// space that follows it. A type is a name, then optionally an element type between `<`
/// and `>`, then optionally `*`, then optionally an array length, in decimal and at most
/// `u32::MAX`, between `[` and `]`; white space may stand between these parts.
#[verifier::opaque]
pub open spec fn type_at(s: Seq<char>, i: int) -> Option<(FieldTypeView, int)>
    decreases s.len() - i,
{
    let a = i + spaces_at(s, i);
    let n = name_at(s, a);
    let b = a + n;
    let c = b + spaces_at(s, b);
    if i < 0 || n == 0 {
        None
    } else {
        let base_name = s.subrange(a, b);
        let opens = c < s.len() && s[c] == '<';
        let inner = if opens {
            type_at(s, c + 1)
        } else {
            None
        };
        if opens && !(inner matches Some(found) && found.1 < s.len() && s[found.1] == '>') {
            None
        } else {
            let generic = if opens {
                Some(Box::new(inner.unwrap().0))
            } else {
                None
            };
            let d = if opens {
                inner.unwrap().1 + 1 + spaces_at(s, inner.unwrap().1 + 1)
            } else {
                c
            };
            let pointer = d < s.len() && s[d] == '*';
            let f = if pointer {
                d + 1 + spaces_at(s, d + 1)
            } else {
                d
            };
            if f < s.len() && s[f] == '[' {
                let h = f + 1 + spaces_at(s, f + 1);
                let k = h + digits_at(s, h);
                let close = k + spaces_at(s, k);
                if k > h && number(s, h, k) <= u32::MAX && close < s.len() && s[close] == ']' {
                    Some(
                        (
                            FieldTypeView {
                                base_name,
                                generic,
                                array_size: Some(number(s, h, k) as u32),
                                pointer,
                            },
                            close + 1 + spaces_at(s, close + 1),
                        ),
                    )
                } else {
                    None
                }
            } else {
                Some((FieldTypeView { base_name, generic, array_size: None, pointer }, f))
            }
        }
    }
}

/// The type that the whole string `s` denotes, if it denotes one.
pub open spec fn parse_type(s: Seq<char>) -> Option<FieldTypeView> {
    match type_at(s, 0) {
        Some(found) if found.1 == s.len() => Some(found.0),
        _ => None,
    }
}

/// Whether `c` can stand in a name: it is neither white space nor a delimiter.
pub open spec fn is_name_char(c: char) -> bool {
    !is_space(c) && !is_delimiter(c)
}

/// Whether a type can be written down and read back: its base name, and that of each
/// element type in it, is not empty and holds neither white space nor a delimiter.
pub open spec fn well_formed(t: FieldTypeView) -> bool
    decreases t,
{
    &&& t.base_name.len() > 0
    &&& forall|i: int| 0 <= i < t.base_name.len() ==> is_name_char(#[trigger] t.base_name[i])
    &&& (t.generic matches Some(inner) ==> well_formed(*inner))
}

proof fn lemma_name_run(s: Seq<char>, a: int, n: nat)
    requires
        0 <= a,
        a + n <= s.len(),
        forall|k: int| a <= k < a + n ==> is_name_char(#[trigger] s[k]),
        a + n == s.len() || !is_name_char(s[a + n]),
    ensures
        name_at(s, a) == n,
    decreases n,
{
    if n > 0 {
        lemma_name_run(s, a + 1, (n - 1) as nat);
    }
}

proof fn lemma_digit_run(s: Seq<char>, a: int, n: nat)
    requires
        0 <= a,
        a + n <= s.len(),
        forall|k: int| a <= k < a + n ==> is_digit(#[trigger] s[k]),
        a + n == s.len() || !is_digit(s[a + n]),
    ensures
        digits_at(s, a) == n,
    decreases n,
{
    if n > 0 {
        lemma_digit_run(s, a + 1, (n - 1) as nat);
    }
}

proof fn lemma_number_of_decimal(s: Seq<char>, from: int, n: nat)
    requires
        0 <= from,
        from + decimal(n).len() <= s.len(),
        s.subrange(from, from + decimal(n).len()) == decimal(n),
    ensures
        number(s, from, from + decimal(n).len()) == n,
    decreases n,
{
    let text = decimal(n);
    let to = from + text.len();
    lemma_decimal_is_digits(n);
    assert(s[to - 1] == text[text.len() - 1]) by {
        assert(s.subrange(from, to)[text.len() - 1] == s[to - 1]);
    }
    if n < 10 {
        assert(number(s, from, from) == 0);
        assert(to == from + 1);
    } else {
        let shorter = decimal(n / 10);
        assert(text.drop_last() =~= shorter);
        assert(s.subrange(from, from + shorter.len()) =~= shorter) by {
            assert forall|k: int| 0 <= k < shorter.len() implies s.subrange(
                from,
                from + shorter.len(),
            )[k] == shorter[k] by {
                assert(s.subrange(from, to)[k] == s[from + k]);
            }
        }
        lemma_number_of_decimal(s, from, n / 10);
        assert(to - 1 == from + shorter.len());
    }
}

/// The text of the element type of a type, between its brackets; empty where the type
/// has none.
pub open spec fn generic_text(t: FieldTypeView) -> Seq<char> {
    match t.generic {
        Some(inner) => "< "@ + type_text(*inner) + " >"@,
        None => Seq::empty(),
    }
}

/// The text of the pointer mark of a type; empty where the type is no pointer.
pub open spec fn pointer_text(t: FieldTypeView) -> Seq<char> {
    if t.pointer {
        "*"@
    } else {
        Seq::empty()
    }
}

/// The text of the array length of a type, between its brackets; empty where the type is
/// no array.
pub open spec fn array_text(t: FieldTypeView) -> Seq<char> {
    match t.array_size {
        Some(n) => "["@ + decimal(n as nat) + "]"@,
        None => Seq::empty(),
    }
}

/// What `type_at` comes to where its steps are known one by one: the name runs from `i`
/// to `b`, the element type, if any, ends before `g_end`, the pointer mark, if any,
/// before `p_end`, the array length, if any, before `e`, and white space up to `j`.
proof fn lemma_type_at_steps(
    s: Seq<char>,
    i: int,
    t: FieldTypeView,
    b: int,
    g_end: int,
    p_end: int,
    e: int,
)
    requires
        0 <= i < b <= g_end <= p_end <= e <= s.len(),
        spaces_at(s, i) == 0,
        name_at(s, i) == b - i,
        s.subrange(i, b) == t.base_name,
        match t.generic {
            Some(inner) => s[b] == '<' && g_end >= b + 2 && type_at(s, b + 1) == Some(
                (*inner, g_end - 1),
            ) && s[g_end - 1] == '>',
            None => g_end == b && (g_end == e || s[b] == '*' || s[b] == '['),
        },
        if t.pointer {
            p_end == g_end + 1 && s[g_end] == '*'
        } else {
            p_end == g_end && (p_end == e || s[p_end] == '[')
        },
        match t.array_size {
            Some(n) => s[p_end] == '[' && e >= p_end + 3 && spaces_at(s, p_end + 1) == 0
                && digits_at(s, p_end + 1) == e - p_end - 2 && number(s, p_end + 1, e - 1) == n
                && s[e - 1] == ']',
            None => p_end == e,
        },
        ({
            let j = e + spaces_at(s, e);
            j == s.len() || !(s[j] == '<' || s[j] == '*' || s[j] == '[')
        }),
    ensures
        type_at(s, i) == Some((t, e + spaces_at(s, e))),
{
    reveal_with_fuel(type_at, 1);
    let j = e + spaces_at(s, e);
    let c = b + spaces_at(s, b);
    let opens = c < s.len() && s[c] == '<';
    if t.generic is Some {
        assert(spaces_at(s, b) == 0);
        assert(opens);
    } else {
        if g_end == e {
            assert(c == j);
        } else {
            assert(spaces_at(s, b) == 0);
        }
        assert(!opens);
    }
    let d = g_end + spaces_at(s, g_end);
    if t.pointer {
        assert(spaces_at(s, g_end) == 0);
    } else {
        if p_end == e {
            assert(d == j);
        } else {
            assert(spaces_at(s, g_end) == 0);
        }
        assert(!(d < s.len() && s[d] == '*'));
    }
    let f = p_end + spaces_at(s, p_end);
    if t.array_size is Some {
        assert(spaces_at(s, p_end) == 0);
        assert(spaces_at(s, e - 1) == 0);
    } else {
        assert(f == j);
    }
}

/// Whether the characters of `text` stand in `s` from position `i` on.
#[verifier::opaque]
pub open spec fn stands_at(s: Seq<char>, i: int, text: Seq<char>) -> bool {
    &&& 0 <= i
    &&& i + text.len() <= s.len()
    &&& forall|k: int| 0 <= k < text.len() ==> s[i + k] == #[trigger] text[k]
}

/// Whether what stands in `s` from position `e` on ends a type that ends there: it does
/// not continue a name, and after white space it does not start a further part.
pub open spec fn ends_type(s: Seq<char>, e: int) -> bool {
    &&& e == s.len() || is_space(s[e]) || is_delimiter(s[e])
    &&& e + spaces_at(s, e) == s.len() || !(s[e + spaces_at(s, e)] == '<' || s[e + spaces_at(
        s,
        e,
    )] == '*' || s[e + spaces_at(s, e)] == '[')
}

proof fn lemma_char_at(s: Seq<char>, i: int, text: Seq<char>, k: int)
    requires
        stands_at(s, i, text),
        0 <= k < text.len(),
    ensures
        0 <= i,
        i + text.len() <= s.len(),
        s[i + k] == text[k],
{
    reveal(stands_at);
}

proof fn lemma_stands_within(s: Seq<char>, i: int, text: Seq<char>)
    requires
        stands_at(s, i, text),
    ensures
        0 <= i,
        i + text.len() <= s.len(),
{
    reveal(stands_at);
}

proof fn lemma_part_stands(s: Seq<char>, i: int, text: Seq<char>, from: int, part: Seq<char>)
    requires
        stands_at(s, i, text),
        0 <= from,
        from + part.len() <= text.len(),
        text.subrange(from, from + part.len()) == part,
    ensures
        stands_at(s, i + from, part),
{
    reveal(stands_at);
    assert forall|k: int| 0 <= k < part.len() implies s[i + from + k] == #[trigger] part[k] by {
        assert(text.subrange(from, from + part.len())[k] == text[from + k]);
        assert(s[i + (from + k)] == text[from + k]);
    }
}

proof fn lemma_standing_text(s: Seq<char>, i: int, text: Seq<char>)
    requires
        stands_at(s, i, text),
    ensures
        s.subrange(i, i + text.len()) == text,
{
    reveal(stands_at);
    assert(s.subrange(i, i + text.len()) =~= text);
}

proof fn lemma_lengths(t: FieldTypeView)
    ensures
        type_text(t).len() == t.base_name.len() + generic_text(t).len() + pointer_text(t).len()
            + array_text(t).len(),
        t.pointer ==> pointer_text(t).len() == 1,
        !t.pointer ==> pointer_text(t).len() == 0,
        t.generic matches Some(inner) ==> generic_text(t).len() == type_text(*inner).len() + 4,
        t.generic is None ==> generic_text(t).len() == 0,
        t.array_size matches Some(n) ==> array_text(t).len() == decimal(n as nat).len() + 2,
        t.array_size is None ==> array_text(t).len() == 0,
{
    reveal_strlit("< ");
    reveal_strlit(" >");
    reveal_strlit("*");
    reveal_strlit("[");
    reveal_strlit("]");
    assert(type_text(t) =~= t.base_name + generic_text(t) + pointer_text(t) + array_text(t));
}

/// Where the text of a type stands, its parts stand one after the other.
proof fn lemma_parts_stand(s: Seq<char>, i: int, t: FieldTypeView)
    requires
        stands_at(s, i, type_text(t)),
    ensures
        stands_at(s, i, t.base_name),
        stands_at(s, i + t.base_name.len(), generic_text(t)),
        stands_at(s, i + t.base_name.len() + generic_text(t).len(), pointer_text(t)),
        stands_at(
            s,
            i + t.base_name.len() + generic_text(t).len() + pointer_text(t).len(),
            array_text(t),
        ),
{
    let text = type_text(t);
    let bl: int = t.base_name.len() as int;
    let gl: int = generic_text(t).len() as int;
    let pl: int = pointer_text(t).len() as int;
    let al: int = array_text(t).len() as int;
    lemma_lengths(t);
    assert(text =~= t.base_name + generic_text(t) + pointer_text(t) + array_text(t));
    assert(text.subrange(0, bl) =~= t.base_name);
    assert(text.subrange(bl, bl + gl) =~= generic_text(t));
    assert(text.subrange(bl + gl, bl + gl + pl) =~= pointer_text(t));
    assert(text.subrange(bl + gl + pl, bl + gl + pl + al) =~= array_text(t));
    lemma_part_stands(s, i, text, 0, t.base_name);
    lemma_part_stands(s, i, text, bl, generic_text(t));
    lemma_part_stands(s, i, text, bl + gl, pointer_text(t));
    lemma_part_stands(s, i, text, bl + gl + pl, array_text(t));
}

/// The first character of each part that is there.
proof fn lemma_first_chars(s: Seq<char>, b: int, g_end: int, p_end: int, t: FieldTypeView)
    requires
        stands_at(s, b, generic_text(t)),
        stands_at(s, g_end, pointer_text(t)),
        stands_at(s, p_end, array_text(t)),
    ensures
        t.generic is Some ==> s[b] == '<',
        t.pointer ==> s[g_end] == '*',
        t.array_size is Some ==> s[p_end] == '[',
{
    reveal_strlit("< ");
    reveal_strlit("*");
    reveal_strlit("[");
    lemma_lengths(t);
    if t.generic is Some {
        lemma_char_at(s, b, generic_text(t), 0);
    }
    if t.pointer {
        lemma_char_at(s, g_end, pointer_text(t), 0);
    }
    if t.array_size is Some {
        lemma_char_at(s, p_end, array_text(t), 0);
    }
}

proof fn lemma_name_part(s: Seq<char>, i: int, t: FieldTypeView)
    requires
        well_formed(t),
        stands_at(s, i, t.base_name),
        i + t.base_name.len() == s.len() || !is_name_char(s[i + t.base_name.len()]),
    ensures
        spaces_at(s, i) == 0,
        name_at(s, i) == t.base_name.len(),
        s.subrange(i, i + t.base_name.len()) == t.base_name,
{
    let base = t.base_name;
    lemma_char_at(s, i, base, 0);
    assert forall|k: int| i <= k < i + base.len() implies is_name_char(#[trigger] s[k]) by {
        lemma_char_at(s, i, base, k - i);
    }
    lemma_name_run(s, i, base.len());
    lemma_standing_text(s, i, base);
}

proof fn lemma_array_part(s: Seq<char>, p_end: int, t: FieldTypeView, n: u32)
    requires
        t.array_size == Some(n),
        stands_at(s, p_end, array_text(t)),
    ensures
        s[p_end] == '[',
        spaces_at(s, p_end + 1) == 0,
        digits_at(s, p_end + 1) == decimal(n as nat).len(),
        decimal(n as nat).len() >= 1,
        number(s, p_end + 1, p_end + 1 + decimal(n as nat).len()) == n,
        s[p_end + 1 + decimal(n as nat).len()] == ']',
        spaces_at(s, p_end + 1 + decimal(n as nat).len()) == 0,
{
    reveal_strlit("[");
    reveal_strlit("]");
    let digits = decimal(n as nat);
    let text = array_text(t);
    let dl: int = digits.len() as int;
    let h = p_end + 1;
    let k = h + dl;
    lemma_decimal_is_digits(n as nat);
    assert(text.len() == dl + 2);
    lemma_char_at(s, p_end, text, 0);
    lemma_char_at(s, p_end, text, 1 + dl);
    assert(text.subrange(1, 1 + dl) =~= digits);
    lemma_part_stands(s, p_end, text, 1, digits);
    lemma_standing_text(s, h, digits);
    assert forall|m: int| h <= m < k implies is_digit(#[trigger] s[m]) by {
        lemma_char_at(s, h, digits, m - h);
    }
    lemma_digit_run(s, h, digits.len());
    lemma_number_of_decimal(s, h, n as nat);
    lemma_char_at(s, h, digits, 0);
}

/// Where the text of a well-formed type stands in `s` at position `i`, and what follows
/// it neither continues its name nor, after white space, adds a part to it, that type is
/// read there, up to the end of the white space that follows.
pub proof fn lemma_type_at_text(s: Seq<char>, i: int, t: FieldTypeView)
    requires
        well_formed(t),
        stands_at(s, i, type_text(t)),
        ends_type(s, i + type_text(t).len()),
    ensures
        type_at(s, i) == Some(
            (t, i + type_text(t).len() + spaces_at(s, i + type_text(t).len() as int)),
        ),
    decreases t, 1nat,
{
    let e = i + type_text(t).len();
    let b = i + t.base_name.len();
    let g_end = b + generic_text(t).len();
    let p_end = g_end + pointer_text(t).len();
    lemma_stands_within(s, i, type_text(t));
    lemma_lengths(t);
    lemma_parts_stand(s, i, t);
    lemma_first_chars(s, b, g_end, p_end, t);
    lemma_name_part(s, i, t);
    match t.generic {
        Some(inner) => {
            lemma_generic_part(s, b, t, *inner);
        },
        None => {},
    }
    match t.array_size {
        Some(n) => {
            lemma_array_part(s, p_end, t, n);
        },
        None => {},
    }
    lemma_type_at_steps(s, i, t, b, g_end, p_end, e);
}

proof fn lemma_generic_part(s: Seq<char>, b: int, t: FieldTypeView, inner: FieldTypeView)
    requires
        well_formed(t),
        t.generic == Some(Box::new(inner)),
        stands_at(s, b, generic_text(t)),
    ensures
        s[b] == '<',
        generic_text(t).len() >= 5,
        type_at(s, b + 1) == Some((inner, b + generic_text(t).len() - 1)),
        s[b + generic_text(t).len() - 1] == '>',
    decreases t, 0nat,
{
    reveal_strlit("< ");
    reveal_strlit(" >");
    let gt = generic_text(t);
    let inner_text = type_text(inner);
    let il: int = inner_text.len() as int;
    let start = b + 2;
    let stop = start + il;
    assert(well_formed(inner));
    lemma_lengths(inner);
    assert(il > 0);
    assert(gt.len() == il + 4);
    lemma_char_at(s, b, gt, 0);
    lemma_char_at(s, b, gt, 1);
    lemma_char_at(s, b, gt, 2 + il);
    lemma_char_at(s, b, gt, 3 + il);
    assert(gt.subrange(2, 2 + il) =~= inner_text);
    lemma_part_stands(s, b, gt, 2, inner_text);
    assert(s[stop] == ' ' && s[stop + 1] == '>');
    assert(spaces_at(s, stop + 1) == 0);
    assert(spaces_at(s, stop) == 1);
    lemma_type_at_text(s, start, inner);
    assert(type_at(s, b + 1) == type_at(s, start)) by {
        reveal_with_fuel(type_at, 1);
        assert(inner_text =~= inner.base_name + generic_text(inner) + pointer_text(inner)
            + array_text(inner));
        assert(inner_text[0] == inner.base_name[0]);
        lemma_char_at(s, start, inner_text, 0);
        assert(s[b + 1] == ' ');
        assert(spaces_at(s, start) == 0);
        assert(spaces_at(s, b + 1) == 1);
    }
}

/// A well-formed type that is written down is read back.
pub proof fn lemma_type_round_trip(t: FieldTypeView)
    requires
        well_formed(t),
    ensures
        parse_type(type_text(t)) == Some(t),
{
    let s = type_text(t);
    assert(stands_at(s, 0, s)) by {
        reveal(stands_at);
    }
    lemma_type_at_text(s, 0, t);
}

/// More digits never denote less.
pub proof fn lemma_number_grows(s: Seq<char>, from: int, mid: int, to: int)
    requires
        from <= mid <= to,
        forall|j: int| from <= j < to ==> is_digit(#[trigger] s[j]),
    ensures
        number(s, from, mid) <= number(s, from, to),
    decreases to - mid,
{
    if mid < to {
        lemma_number_grows(s, from, mid, to - 1);
    }
}

fn skip_spaces(chars: &Vec<char>, i: usize) -> (j: usize)
    requires
        i <= chars@.len(),
    ensures
        j == i + spaces_at(chars@, i as int),
        j <= chars@.len(),
{
    let mut j: usize = i;
    while j < chars.len() && (chars[j] == ' ' || chars[j] == '\t' || chars[j] == '\n' || chars[j]
        == '\r')
        invariant
            i <= j <= chars@.len(),
            i + spaces_at(chars@, i as int) == j + spaces_at(chars@, j as int),
        decreases chars@.len() - j,
    {
        j += 1;
    }
    j
}

fn skip_name(chars: &Vec<char>, i: usize) -> (j: usize)
    requires
        i <= chars@.len(),
    ensures
        j == i + name_at(chars@, i as int),
        j <= chars@.len(),
{
    let mut j: usize = i;
    while j < chars.len() && !(chars[j] == ' ' || chars[j] == '\t' || chars[j] == '\n' || chars[j]
        == '\r' || chars[j] == '<' || chars[j] == '>' || chars[j] == '*' || chars[j] == '['
        || chars[j] == ']' || chars[j] == ',')
        invariant
            i <= j <= chars@.len(),
            i + name_at(chars@, i as int) == j + name_at(chars@, j as int),
        decreases chars@.len() - j,
    {
        j += 1;
    }
    j
}

/// Reads the decimal digits from `i` on: the position after them, and the number they
/// denote where it is at most `u32::MAX`.
fn read_number(chars: &Vec<char>, i: usize) -> (res: (usize, Option<u32>))
    requires
        i <= chars@.len(),
    ensures
        res.0 == i + digits_at(chars@, i as int),
        res.0 <= chars@.len(),
        res.1 is Some <==> number(chars@, i as int, res.0 as int) <= u32::MAX,
        res.1 is Some ==> res.1->0 == number(chars@, i as int, res.0 as int),
{
    let mut j: usize = i;
    let mut value: u64 = 0;
    let mut fits: bool = true;
    loop
        invariant
            i <= j <= chars@.len(),
            i + digits_at(chars@, i as int) == j + digits_at(chars@, j as int),
            forall|k: int| i <= k < j ==> is_digit(#[trigger] chars@[k]),
            fits ==> value == number(chars@, i as int, j as int) && value <= u32::MAX,
            !fits ==> number(chars@, i as int, j as int) > u32::MAX,
        ensures
            j == i + digits_at(chars@, i as int),
            fits ==> value == number(chars@, i as int, j as int) && value <= u32::MAX,
            !fits ==> number(chars@, i as int, j as int) > u32::MAX,
        decreases chars@.len() - j,
    {
        if j >= chars.len() {
            break;
        }
        match digit_of(chars[j]) {
            None => {
                break;
            },
            Some(d) => {
                proof {
                    lemma_number_grows(chars@, i as int, j as int, j + 1);
                }
                if fits {
                    value = value * 10 + d as u64;
                    if value > 4294967295 {
                        fits = false;
                    }
                }
                j += 1;
            },
        }
    }
    if fits {
        (j, Some(value as u32))
    } else {
        (j, None)
    }
}

impl View for FieldType {
    type V = FieldTypeView;

    open spec fn view(&self) -> FieldTypeView {
        self.model()
    }
}

impl FieldType {
    /// The model of the type.
    pub open spec fn model(&self) -> FieldTypeView
        decreases self,
    {
        FieldTypeView {
            base_name: self.base_name@,
            generic: match self.generic {
                Some(inner) => Some(Box::new(inner.model())),
                None => None,
            },
            array_size: self.array_size,
            pointer: self.pointer,
        }
    }

    /// A plain type of the given base name.
    pub fn new(base_name: String) -> (t: FieldType)
        ensures
            t@ == (FieldTypeView {
                base_name: base_name@,
                generic: None,
                array_size: None,
                pointer: false,
            }),
    {
        FieldType { base_name, generic: None, array_size: None, pointer: false }
    }

    /// Parses a type string, such as `CUtlVector< CHandle< CBaseEntity > >`,
    /// `CBodyComponent*` or `uint8[4]`.
    pub fn parse(text: &str) -> (res: Result<FieldType, FieldTypeParseError>)
        ensures
            res is Ok <==> parse_type(text@) is Some,
            res matches Ok(t) ==> t@ == parse_type(text@)->0,
            res matches Err(e) ==> e matches FieldTypeParseError::Malformed(s) && s@ == text@,
    {
        let chars: Vec<char> = chars_of(text);
        match FieldType::parse_at(text, &chars, 0) {
            Some((t, end)) => {
                if end == chars.len() {
                    Ok(t)
                } else {
                    Err(FieldTypeParseError::Malformed(text.to_owned()))
                }
            },
            None => Err(FieldTypeParseError::Malformed(text.to_owned())),
        }
    }

    fn parse_at(text: &str, chars: &Vec<char>, i: usize) -> (res: Option<(FieldType, usize)>)
        requires
            chars@ == text@,
            i <= chars@.len(),
        ensures
            res is Some <==> type_at(chars@, i as int) is Some,
            res matches Some(found) ==> found.0@ == type_at(chars@, i as int).unwrap().0
                && found.1 == type_at(chars@, i as int).unwrap().1 && found.1 <= chars@.len(),
        decreases chars@.len() - i,
    {
        proof {
            reveal_with_fuel(type_at, 1);
        }
        let len: usize = chars.len();
        let a: usize = skip_spaces(chars, i);
        let b: usize = skip_name(chars, a);
        if b == a {
            return None;
        }
        let c: usize = skip_spaces(chars, b);
        let base_name: String = text.substring_char(a, b).to_owned();
        let mut generic: Option<Box<FieldType>> = None;
        let mut d: usize = c;
        if c < len && chars[c] == '<' {
            match FieldType::parse_at(text, chars, c + 1) {
                None => {
                    return None;
                },
                Some((inner, end)) => {
                    if !(end < len && chars[end] == '>') {
                        return None;
                    }
                    generic = Some(Box::new(inner));
                    d = skip_spaces(chars, end + 1);
                },
            }
        }
        let pointer: bool = d < len && chars[d] == '*';
        let f: usize = if pointer {
            skip_spaces(chars, d + 1)
        } else {
            d
        };
        if f < len && chars[f] == '[' {
            let h: usize = skip_spaces(chars, f + 1);
            let (k, value) = read_number(chars, h);
            let close: usize = skip_spaces(chars, k);
            match value {
                Some(n) => {
                    if k > h && close < len && chars[close] == ']' {
                        let end: usize = skip_spaces(chars, close + 1);
                        Some((FieldType { base_name, generic, array_size: Some(n), pointer }, end))
                    } else {
                        None
                    }
                },
                None => None,
            }
        } else {
            Some((FieldType { base_name, generic, array_size: None, pointer }, f))
        }
    }

    /// The type as text.
    pub fn as_string(&self) -> (s: String)
        ensures
            s@ == type_text(self@),
        decreases self,
    {
        let mut s: String = self.base_name.clone();
        match &self.generic {
            Some(inner) => {
                let text: String = inner.as_string();
                s.append("< ");
                s.append(text.as_str());
                s.append(" >");
            },
            None => {},
        }
        if self.pointer {
            s.append("*");
        }
        match self.array_size {
            Some(n) => {
                s.append("[");
                push_decimal(&mut s, n as u64);
                s.append("]");
            },
            None => {},
        }
        assert(s@ =~= type_text(self@));
        s
    }
}

} // verus!

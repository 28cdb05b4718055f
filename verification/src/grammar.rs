//! The JSON grammar, stated as ghost functions over the input bytes.
//!
//! Each function maps a position in the input to the position one past the
//! construct recognized there, together with the construct's model, or to
//! `None` where the text does not match. These functions are the single
//! reference the executable parser is proved against.
//!
//! Two points where the grammar is stated deliberately:
//! - `\"` decodes to a literal quote, alongside the other escape codes:
//!   without it a quote inside a string would be unwritable (it remains
//!   reachable as `"`).
//! - a `\uXXXX` escape must denote a Unicode scalar value on its own;
//!   surrogate halves are rejected rather than paired, so code points above
//!   U+FFFF cannot be written as escapes.

use vstd::prelude::*;
use crate::value::ValueModel;
use crate::value::obj_insert;

verus! {

pub const QUOTE: u8 = 0x22;
pub const BACKSLASH: u8 = 0x5c;
pub const COMMA: u8 = 0x2c;
pub const COLON: u8 = 0x3a;
pub const MINUS: u8 = 0x2d;
pub const DOT: u8 = 0x2e;
pub const PLUS: u8 = 0x2b;
pub const LBRACKET: u8 = 0x5b;
pub const RBRACKET: u8 = 0x5d;
pub const LBRACE: u8 = 0x7b;
pub const RBRACE: u8 = 0x7d;

pub open spec fn null_lit() -> Seq<u8> {
    seq![0x6e, 0x75, 0x6c, 0x6c]
}

pub open spec fn true_lit() -> Seq<u8> {
    seq![0x74, 0x72, 0x75, 0x65]
}

pub open spec fn false_lit() -> Seq<u8> {
    seq![0x66, 0x61, 0x6c, 0x73, 0x65]
}

/// The whitespace bytes skipped between tokens: space, tab, newline, return.
pub open spec fn is_ws(b: u8) -> bool {
    b == 0x20 || b == 0x09 || b == 0x0a || b == 0x0d
}

/// The first position at or after `pos` holding a byte that is not whitespace.
pub open spec fn skip_ws(s: Seq<u8>, pos: int) -> int
    decreases s.len() - pos,
{
    if 0 <= pos < s.len() && is_ws(s[pos]) {
        skip_ws(s, pos + 1)
    } else {
        pos
    }
}

pub proof fn lemma_skip_ws_bounds(s: Seq<u8>, pos: int)
    requires
        0 <= pos <= s.len(),
    ensures
        pos <= skip_ws(s, pos) <= s.len(),
        skip_ws(s, pos) < s.len() ==> !is_ws(s[skip_ws(s, pos)]),
    decreases s.len() - pos,
{
    if pos < s.len() && is_ws(s[pos]) {
        lemma_skip_ws_bounds(s, pos + 1);
    }
}

/// The exact literal `lit` stands at `pos`.
pub open spec fn lit_at(s: Seq<u8>, pos: int, lit: Seq<u8>) -> bool {
    &&& 0 <= pos
    &&& pos + lit.len() <= s.len()
    &&& s.subrange(pos, pos + lit.len() as int) == lit
}

pub open spec fn is_digit(b: u8) -> bool {
    0x30 <= b <= 0x39
}

/// The end of the maximal run of decimal digits starting at `pos`.
pub open spec fn digits_end(s: Seq<u8>, pos: int) -> int
    decreases s.len() - pos,
{
    if 0 <= pos < s.len() && is_digit(s[pos]) {
        digits_end(s, pos + 1)
    } else {
        pos
    }
}

pub proof fn lemma_digits_end_bounds(s: Seq<u8>, pos: int)
    requires
        0 <= pos <= s.len(),
    ensures
        pos <= digits_end(s, pos) <= s.len(),
    decreases s.len() - pos,
{
    if pos < s.len() && is_digit(s[pos]) {
        lemma_digits_end_bounds(s, pos + 1);
    }
}

/// The number grammar `-?[0-9]+('.'[0-9]+)?([eE][+-]?[0-9]+)?`, recognized
/// by longest match: the position one past the recognized literal, or `None`
/// where no leading digit follows the optional sign. A fractional dot or an
/// exponent mark that is not followed by a digit is left unconsumed.
pub open spec fn spec_number(s: Seq<u8>, pos: int) -> Option<int> {
    if pos < 0 {
        None
    } else {
        let p0: int = if pos < s.len() && s[pos] == MINUS {
            pos + 1
        } else {
            pos
        };
        if p0 < s.len() && is_digit(s[p0]) {
            let p1: int = digits_end(s, p0);
            let p2: int = if p1 + 1 < s.len() && s[p1] == DOT && is_digit(s[p1 + 1]) {
                digits_end(s, p1 + 1)
            } else {
                p1
            };
            let p3: int = if p2 < s.len() && (s[p2] == 0x65 || s[p2] == 0x45) {
                let q: int = if p2 + 1 < s.len() && (s[p2 + 1] == PLUS || s[p2 + 1] == MINUS) {
                    p2 + 2
                } else {
                    p2 + 1
                };
                if q < s.len() && is_digit(s[q]) {
                    digits_end(s, q)
                } else {
                    p2
                }
            } else {
                p2
            };
            Some(p3)
        } else {
            None
        }
    }
}

pub open spec fn is_hex(b: u8) -> bool {
    is_digit(b) || (0x61 <= b <= 0x66) || (0x41 <= b <= 0x46)
}

pub open spec fn hex_val(b: u8) -> u32 {
    if is_digit(b) {
        (b - 0x30) as u32
    } else if 0x61 <= b <= 0x66 {
        (b - 0x61 + 10) as u32
    } else {
        (b - 0x41 + 10) as u32
    }
}

/// A code point written as `uXXXX` at `pos` (the position of the `u`): the
/// four hex digits read as one 16-bit value. A surrogate half is not a
/// Unicode scalar value of its own and is rejected.
pub open spec fn spec_unicode_escape(s: Seq<u8>, pos: int) -> Option<(int, u32)> {
    if 0 <= pos && pos + 5 <= s.len() && s[pos] == 0x75 && is_hex(s[pos + 1]) && is_hex(s[pos + 2])
        && is_hex(s[pos + 3]) && is_hex(s[pos + 4]) {
        let c: int = hex_val(s[pos + 1]) * 0x1000 + hex_val(s[pos + 2]) * 0x100 + hex_val(
            s[pos + 3],
        ) * 0x10 + hex_val(s[pos + 4]);
        if 0xd800 <= c <= 0xdfff {
            None
        } else {
            Some((pos + 5, c as u32))
        }
    } else {
        None
    }
}

/// An escape sequence at `pos` (the position of the backslash): the position
/// one past it and the scalar value it denotes.
pub open spec fn spec_escape(s: Seq<u8>, pos: int) -> Option<(int, u32)> {
    if 0 <= pos && pos + 1 < s.len() && s[pos] == BACKSLASH {
        let e = s[pos + 1];
        if e == QUOTE {
            Some((pos + 2, QUOTE as u32))
        } else if e == BACKSLASH {
            Some((pos + 2, BACKSLASH as u32))
        } else if e == 0x2f {
            Some((pos + 2, 0x2f))
        } else if e == 0x6e {
            Some((pos + 2, 0x0a))
        } else if e == 0x72 {
            Some((pos + 2, 0x0d))
        } else if e == 0x74 {
            Some((pos + 2, 0x09))
        } else if e == 0x62 {
            Some((pos + 2, 0x08))
        } else if e == 0x66 {
            Some((pos + 2, 0x0c))
        } else if e == 0x75 {
            spec_unicode_escape(s, pos + 1)
        } else {
            None
        }
    } else {
        None
    }
}

/// The UTF-8 encoding of a scalar value below 0x10000.
pub open spec fn utf8_of(c: u32) -> Seq<u8> {
    if c < 0x80 {
        seq![c as u8]
    } else if c < 0x800 {
        seq![(0xc0 + c / 0x40) as u8, (0x80 + c % 0x40) as u8]
    } else {
        seq![(0xe0 + c / 0x1000) as u8, (0x80 + (c / 0x40) % 0x40) as u8, (0x80 + c % 0x40) as u8]
    }
}

/// The body of a string, from `pos` (just past the opening quote) to the
/// closing quote: the position one past the closing quote and the decoded
/// content. Running out of input before the closing quote, or meeting a
/// malformed escape, yields `None`.
pub open spec fn spec_str_body(s: Seq<u8>, pos: int) -> Option<(int, Seq<u8>)>
    decreases s.len() - pos,
{
    if pos < 0 || pos >= s.len() {
        None
    } else if s[pos] == QUOTE {
        Some((pos + 1, Seq::empty()))
    } else if s[pos] == BACKSLASH {
        match spec_escape(s, pos) {
            Option::None => None,
            Option::Some((p2, c)) => if pos < p2 <= s.len() {
                match spec_str_body(s, p2) {
                    Option::None => None,
                    Option::Some((end, rest)) => Some((end, utf8_of(c) + rest)),
                }
            } else {
                None
            },
        }
    } else {
        match spec_str_body(s, pos + 1) {
            Option::None => None,
            Option::Some((end, rest)) => Some((end, seq![s[pos]] + rest)),
        }
    }
}

/// A recognized piece of string content, put in front of whatever the rest
/// of the string body decodes to.
pub open spec fn prepend_decoded(prefix: Seq<u8>, o: Option<(int, Seq<u8>)>) -> Option<
    (int, Seq<u8>),
> {
    match o {
        Option::None => None,
        Option::Some((end, d)) => Some((end, prefix + d)),
    }
}

/// A maximal run of bytes free of quote and backslash decodes to itself, in
/// front of whatever follows the run.
pub proof fn lemma_str_body_run(s: Seq<u8>, a: int, b: int)
    requires
        0 <= a <= b <= s.len(),
        forall|k: int| a <= k < b ==> s[k] != QUOTE && s[k] != BACKSLASH,
    ensures
        spec_str_body(s, a) == prepend_decoded(s.subrange(a, b), spec_str_body(s, b)),
    decreases b - a,
{
    if a == b {
        match spec_str_body(s, b) {
            Option::None => {},
            Option::Some((end, d)) => {
                assert(s.subrange(a, b) + d =~= d);
            },
        }
    } else {
        lemma_str_body_run(s, a + 1, b);
        match spec_str_body(s, b) {
            Option::None => {},
            Option::Some((end, d)) => {
                assert(seq![s[a]] + (s.subrange(a + 1, b) + d) =~= s.subrange(a, b) + d);
            },
        }
    }
}

/// A quoted string at `pos`: the position one past its closing quote and the
/// decoded content, every escape sequence resolved.
pub open spec fn spec_string(s: Seq<u8>, pos: int) -> Option<(int, Seq<u8>)> {
    if 0 <= pos < s.len() && s[pos] == QUOTE {
        spec_str_body(s, pos + 1)
    } else {
        None
    }
}

/// A JSON value at `pos`: the alternatives tried as the parser tries them —
/// `null`, `true`, `false`, number, string, array, object; their grammars
/// are disjoint in their first byte.
pub open spec fn spec_value(s: Seq<u8>, pos: int) -> Option<(int, ValueModel)>
    decreases s.len() - pos, 1int,
{
    if lit_at(s, pos, null_lit()) {
        Some((pos + 4, ValueModel::Null))
    } else if lit_at(s, pos, true_lit()) {
        Some((pos + 4, ValueModel::Bool(true)))
    } else if lit_at(s, pos, false_lit()) {
        Some((pos + 5, ValueModel::Bool(false)))
    } else {
        match spec_number(s, pos) {
            Option::Some(end) => Some((end, ValueModel::Number(s.subrange(pos, end)))),
            Option::None => if 0 <= pos < s.len() && s[pos] == QUOTE {
                match spec_string(s, pos) {
                    Option::None => None,
                    Option::Some((p, d)) => Some((p, ValueModel::Str(d))),
                }
            } else if 0 <= pos < s.len() && s[pos] == LBRACKET {
                spec_array(s, pos)
            } else if 0 <= pos < s.len() && s[pos] == LBRACE {
                spec_object(s, pos)
            } else {
                None
            },
        }
    }
}

/// An array at `pos` (the position of the opening bracket).
pub open spec fn spec_array(s: Seq<u8>, pos: int) -> Option<(int, ValueModel)>
    decreases s.len() - pos, 0int,
{
    let p = skip_ws(s, pos + 1);
    if 0 <= pos < s.len() && s[pos] == LBRACKET && pos < p <= s.len() {
        if p < s.len() && s[p] == RBRACKET {
            Some((p + 1, ValueModel::Array(Seq::empty())))
        } else {
            spec_array_items(s, p, Seq::empty())
        }
    } else {
        None
    }
}

/// The elements of an array from the first byte of an element at `pos`:
/// element, then either the closing bracket or a comma and further elements.
/// A comma directly followed by the closing bracket fails the element parse,
/// so a trailing comma is rejected by construction.
pub open spec fn spec_array_items(s: Seq<u8>, pos: int, acc: Seq<ValueModel>) -> Option<
    (int, ValueModel),
>
    decreases s.len() - pos, 2int,
{
    match spec_value(s, pos) {
        Option::None => None,
        Option::Some((p1, v)) => {
            let acc2 = acc.push(v);
            let p2 = skip_ws(s, p1);
            if p2 < s.len() && s[p2] == RBRACKET {
                Some((p2 + 1, ValueModel::Array(acc2)))
            } else if p2 < s.len() && s[p2] == COMMA {
                let p3 = skip_ws(s, p2 + 1);
                if pos < p3 <= s.len() {
                    spec_array_items(s, p3, acc2)
                } else {
                    None
                }
            } else {
                None
            }
        },
    }
}

/// An object at `pos` (the position of the opening brace).
pub open spec fn spec_object(s: Seq<u8>, pos: int) -> Option<(int, ValueModel)>
    decreases s.len() - pos, 0int,
{
    let p = skip_ws(s, pos + 1);
    if 0 <= pos < s.len() && s[pos] == LBRACE && pos < p <= s.len() {
        if p < s.len() && s[p] == RBRACE {
            Some((p + 1, ValueModel::Object(Seq::empty())))
        } else {
            spec_object_items(s, p, Seq::empty())
        }
    } else {
        None
    }
}

/// The members of an object from the first byte of a key at `pos`: a quoted
/// key, a colon, a value, then either the closing brace or a comma and
/// further members. A repeated key replaces the earlier member in place.
pub open spec fn spec_object_items(
    s: Seq<u8>,
    pos: int,
    acc: Seq<(Seq<u8>, ValueModel)>,
) -> Option<(int, ValueModel)>
    decreases s.len() - pos, 2int,
{
    match spec_string(s, pos) {
        Option::None => None,
        Option::Some((p1, k)) => {
            let p2 = skip_ws(s, p1);
            if p2 < s.len() && s[p2] == COLON {
                let p3 = skip_ws(s, p2 + 1);
                if pos < p3 <= s.len() {
                    match spec_value(s, p3) {
                        Option::None => None,
                        Option::Some((p4, v)) => {
                            let acc2 = obj_insert(acc, k, v);
                            let p5 = skip_ws(s, p4);
                            if p5 < s.len() && s[p5] == RBRACE {
                                Some((p5 + 1, ValueModel::Object(acc2)))
                            } else if p5 < s.len() && s[p5] == COMMA {
                                let p6 = skip_ws(s, p5 + 1);
                                if pos < p6 <= s.len() {
                                    spec_object_items(s, p6, acc2)
                                } else {
                                    None
                                }
                            } else {
                                None
                            }
                        },
                    }
                }
                else {
                    None
                }
            } else {
                None
            }
        },
    }
}

} // verus!

//! The executable recursive-descent parser, proved against the grammar.
//!
//! Every function here takes the input bytes and a position and, on
//! success, returns the position one past what it consumed together with
//! the parsed result; its contract states that this agrees exactly with the
//! corresponding ghost grammar function. On failure the grammar function
//! yields `None` and the parser returns a diagnostic that consumed nothing.
//!
//! Arrays and objects share the delimiter discipline of a comma-separated,
//! bracket-delimited collection; the two loops are kept line-for-line alike
//! rather than behind one higher-order combinator, each instantiating its
//! own element parse and fold.

use vstd::prelude::*;
use vstd::slice::slice_subrange;
use vstd::slice::slice_to_vec;
use crate::error::ErrorKind;
use crate::error::ParseError;
use crate::grammar::BACKSLASH;
use crate::grammar::COLON;
use crate::grammar::COMMA;
use crate::grammar::DOT;
use crate::grammar::LBRACE;
use crate::grammar::LBRACKET;
use crate::grammar::MINUS;
use crate::grammar::PLUS;
use crate::grammar::QUOTE;
use crate::grammar::RBRACE;
use crate::grammar::RBRACKET;
use crate::grammar::digits_end;
use crate::grammar::false_lit;
use crate::grammar::hex_val;
use crate::grammar::is_hex;
use crate::grammar::lemma_digits_end_bounds;
use crate::grammar::lemma_skip_ws_bounds;
use crate::grammar::lemma_str_body_run;
use crate::grammar::lit_at;
use crate::grammar::null_lit;
use crate::grammar::prepend_decoded;
use crate::grammar::skip_ws;
use crate::grammar::spec_array;
use crate::grammar::spec_array_items;
use crate::grammar::spec_escape;
use crate::grammar::spec_number;
use crate::grammar::spec_object;
use crate::grammar::spec_object_items;
use crate::grammar::spec_str_body;
use crate::grammar::spec_string;
use crate::grammar::spec_unicode_escape;
use crate::grammar::spec_value;
use crate::grammar::true_lit;
use crate::grammar::utf8_of;
use crate::value::Text;
use crate::value::Value;
use crate::value::ValueModel;
use crate::value::models_of_pairs;
use crate::value::models_of_seq;
use crate::value::obj_insert;
use crate::value::value_model;
use crate::value::lemma_models_of_pairs_index;
use crate::value::lemma_models_of_pairs_push;
use crate::value::lemma_models_of_pairs_update;
use crate::value::lemma_models_of_seq_push;
use crate::value::lemma_obj_insert_absent;
use crate::value::lemma_obj_insert_found;

verus! {

/// Position one past the whitespace run starting at `pos`.
fn ws_end(input: &[u8], pos: usize) -> (r: usize)
    requires
        pos <= input@.len(),
    ensures
        r as int == skip_ws(input@, pos as int),
        pos <= r <= input@.len(),
{
    let mut i: usize = pos;
    while i < input.len() && (input[i] == 0x20 || input[i] == 0x09 || input[i] == 0x0a
        || input[i] == 0x0d)
        invariant
            pos <= i <= input@.len(),
            skip_ws(input@, pos as int) == skip_ws(input@, i as int),
        decreases input@.len() - i,
    {
        i = i + 1;
    }
    i
}

/// The four given bytes stand at `pos`.
fn lit4_at(input: &[u8], pos: usize, b0: u8, b1: u8, b2: u8, b3: u8) -> (r: bool)
    requires
        pos <= input@.len(),
    ensures
        r == lit_at(input@, pos as int, seq![b0, b1, b2, b3]),
{
    let ghost lit = seq![b0, b1, b2, b3];
    if input.len() - pos >= 4 && input[pos] == b0 && input[pos + 1] == b1 && input[pos + 2] == b2
        && input[pos + 3] == b3 {
        proof {
            assert(input@.subrange(pos as int, pos as int + 4) =~= lit);
        }
        true
    } else {
        proof {
            if lit_at(input@, pos as int, lit) {
                let sub = input@.subrange(pos as int, pos as int + 4);
                assert(sub[0] == input@[pos as int]);
                assert(sub[1] == input@[pos as int + 1]);
                assert(sub[2] == input@[pos as int + 2]);
                assert(sub[3] == input@[pos as int + 3]);
            }
        }
        false
    }
}

/// The five given bytes stand at `pos`.
fn lit5_at(input: &[u8], pos: usize, b0: u8, b1: u8, b2: u8, b3: u8, b4: u8) -> (r: bool)
    requires
        pos <= input@.len(),
    ensures
        r == lit_at(input@, pos as int, seq![b0, b1, b2, b3, b4]),
{
    let ghost lit = seq![b0, b1, b2, b3, b4];
    if input.len() - pos >= 5 && input[pos] == b0 && input[pos + 1] == b1 && input[pos + 2] == b2
        && input[pos + 3] == b3 && input[pos + 4] == b4 {
        proof {
            assert(input@.subrange(pos as int, pos as int + 5) =~= lit);
        }
        true
    } else {
        proof {
            if lit_at(input@, pos as int, lit) {
                let sub = input@.subrange(pos as int, pos as int + 5);
                assert(sub[0] == input@[pos as int]);
                assert(sub[1] == input@[pos as int + 1]);
                assert(sub[2] == input@[pos as int + 2]);
                assert(sub[3] == input@[pos as int + 3]);
                assert(sub[4] == input@[pos as int + 4]);
            }
        }
        false
    }
}

/// Recognize the literal `null`, consuming exactly its four bytes.
pub fn parse_null(input: &[u8], pos: usize) -> (r: Result<usize, ParseError>)
    requires
        pos <= input@.len(),
    ensures
        match r {
            Ok(p) => lit_at(input@, pos as int, null_lit()) && p == pos + 4,
            Err(e) => !lit_at(input@, pos as int, null_lit()) && e.kind
                == ErrorKind::ExpectedLiteral && e.pos == pos,
        },
{
    if lit4_at(input, pos, 0x6e, 0x75, 0x6c, 0x6c) {
        proof {
            vstd::slice::axiom_spec_len(input);
        }
        Ok(pos + 4)
    } else {
        Err(ParseError { kind: ErrorKind::ExpectedLiteral, pos })
    }
}

/// Recognize `true` or `false`, `true` tried first.
pub fn parse_bool(input: &[u8], pos: usize) -> (r: Result<(usize, bool), ParseError>)
    requires
        pos <= input@.len(),
    ensures
        match r {
            Ok((p, b)) => if b {
                lit_at(input@, pos as int, true_lit()) && p == pos + 4
            } else {
                lit_at(input@, pos as int, false_lit()) && p == pos + 5
            },
            Err(e) => !lit_at(input@, pos as int, true_lit()) && !lit_at(
                input@,
                pos as int,
                false_lit(),
            ) && e.kind == ErrorKind::ExpectedLiteral && e.pos == pos,
        },
{
    if lit4_at(input, pos, 0x74, 0x72, 0x75, 0x65) {
        proof {
            vstd::slice::axiom_spec_len(input);
        }
        Ok((pos + 4, true))
    } else if lit5_at(input, pos, 0x66, 0x61, 0x6c, 0x73, 0x65) {
        proof {
            vstd::slice::axiom_spec_len(input);
        }
        Ok((pos + 5, false))
    } else {
        Err(ParseError { kind: ErrorKind::ExpectedLiteral, pos })
    }
}

/// Position one past the digit run starting at `pos`.
fn digits_scan(input: &[u8], pos: usize) -> (r: usize)
    requires
        pos <= input@.len(),
    ensures
        r as int == digits_end(input@, pos as int),
        pos <= r <= input@.len(),
{
    let mut i: usize = pos;
    while i < input.len() && 0x30 <= input[i] && input[i] <= 0x39
        invariant
            pos <= i <= input@.len(),
            digits_end(input@, pos as int) == digits_end(input@, i as int),
        decreases input@.len() - i,
    {
        i = i + 1;
    }
    i
}

/// Recognize the longest number literal at `pos` without interpreting it,
/// and hand back the recognized bytes; turning them into a machine float is
/// the caller's step.
pub fn parse_number<'a>(input: &'a [u8], pos: usize) -> (r: Result<(usize, &'a [u8]), ParseError>)
    requires
        pos <= input@.len(),
    ensures
        match r {
            Ok((p, lit)) => spec_number(input@, pos as int) == Some(p as int) && pos < p
                <= input@.len() && lit@ == input@.subrange(pos as int, p as int),
            Err(e) => spec_number(input@, pos as int) is None && e.kind == ErrorKind::ExpectedDigit
                && e.pos >= pos,
        },
{
    let p0: usize = if pos < input.len() && input[pos] == MINUS {
        pos + 1
    } else {
        pos
    };
    if p0 < input.len() && 0x30 <= input[p0] && input[p0] <= 0x39 {
        let p1: usize = digits_scan(input, p0);
        proof {
            assert(digits_end(input@, p0 as int) == digits_end(input@, p0 as int + 1));
            lemma_digits_end_bounds(input@, p0 as int + 1);
        }
        let p2: usize = if input.len() - p1 >= 2 && input[p1] == DOT && 0x30 <= input[p1 + 1]
            && input[p1 + 1] <= 0x39 {
            digits_scan(input, p1 + 1)
        } else {
            p1
        };
        let p3: usize = if p2 < input.len() && (input[p2] == 0x65 || input[p2] == 0x45) {
            let q: usize = if input.len() - p2 >= 2 && (input[p2 + 1] == PLUS || input[p2 + 1]
                == MINUS) {
                p2 + 2
            } else {
                p2 + 1
            };
            if q < input.len() && 0x30 <= input[q] && input[q] <= 0x39 {
                digits_scan(input, q)
            } else {
                p2
            }
        } else {
            p2
        };
        Ok((p3, slice_subrange(input, pos, p3)))
    } else {
        Err(ParseError { kind: ErrorKind::ExpectedDigit, pos: p0 })
    }
}

/// One of the four hex digits of a `uXXXX` escape, as its value.
fn hex_digit(b: u8) -> (r: Option<u32>)
    ensures
        r is Some <==> is_hex(b),
        r is Some ==> r->0 == hex_val(b) && r->0 < 16,
{
    if 0x30 <= b && b <= 0x39 {
        Some((b - 0x30) as u32)
    } else if 0x61 <= b && b <= 0x66 {
        Some((b - 0x61 + 10) as u32)
    } else if 0x41 <= b && b <= 0x46 {
        Some((b - 0x41 + 10) as u32)
    } else {
        None
    }
}

/// Decode `uXXXX` at `pos` (the position of the `u`): four hex digits read
/// as one code point, rejected when it is a surrogate half.
pub fn parse_escaped_unicode(input: &[u8], pos: usize) -> (r: Result<(usize, u32), ParseError>)
    requires
        pos <= input@.len(),
    ensures
        match r {
            Ok((p, c)) => spec_unicode_escape(input@, pos as int) == Some((p as int, c)) && pos < p
                <= input@.len() && c < 0x10000 && !(0xd800 <= c <= 0xdfff),
            Err(e) => spec_unicode_escape(input@, pos as int) is None && e.kind
                == ErrorKind::InvalidEscape && e.pos >= pos,
        },
{
    if input.len() - pos >= 5 && input[pos] == 0x75 {
        let h1 = hex_digit(input[pos + 1]);
        let h2 = hex_digit(input[pos + 2]);
        let h3 = hex_digit(input[pos + 3]);
        let h4 = hex_digit(input[pos + 4]);
        match (h1, h2, h3, h4) {
            (Some(a), Some(b), Some(c), Some(d)) => {
                let code: u32 = a * 0x1000 + b * 0x100 + c * 0x10 + d;
                if 0xd800 <= code && code <= 0xdfff {
                    Err(ParseError { kind: ErrorKind::InvalidEscape, pos })
                } else {
                    Ok((pos + 5, code))
                }
            },
            _ => Err(ParseError { kind: ErrorKind::InvalidEscape, pos }),
        }
    } else {
        Err(ParseError { kind: ErrorKind::InvalidEscape, pos })
    }
}

/// Decode the escape sequence at `pos` (the position of the backslash) to
/// the scalar value it denotes.
pub fn parse_escaped_char(input: &[u8], pos: usize) -> (r: Result<(usize, u32), ParseError>)
    requires
        pos <= input@.len(),
    ensures
        match r {
            Ok((p, c)) => spec_escape(input@, pos as int) == Some((p as int, c)) && pos < p
                <= input@.len() && c < 0x10000,
            Err(e) => spec_escape(input@, pos as int) is None && e.kind == ErrorKind::InvalidEscape
                && e.pos >= pos,
        },
{
    if input.len() - pos >= 2 && input[pos] == BACKSLASH {
        let e = input[pos + 1];
        if e == QUOTE {
            Ok((pos + 2, QUOTE as u32))
        } else if e == BACKSLASH {
            Ok((pos + 2, BACKSLASH as u32))
        } else if e == 0x2f {
            Ok((pos + 2, 0x2f))
        } else if e == 0x6e {
            Ok((pos + 2, 0x0a))
        } else if e == 0x72 {
            Ok((pos + 2, 0x0d))
        } else if e == 0x74 {
            Ok((pos + 2, 0x09))
        } else if e == 0x62 {
            Ok((pos + 2, 0x08))
        } else if e == 0x66 {
            Ok((pos + 2, 0x0c))
        } else if e == 0x75 {
            parse_escaped_unicode(input, pos + 1)
        } else {
            Err(ParseError { kind: ErrorKind::InvalidEscape, pos: pos + 1 })
        }
    } else {
        Err(ParseError { kind: ErrorKind::InvalidEscape, pos })
    }
}

/// Append one decoded scalar value to gathered string content, encoded as
/// UTF-8. The first escape of a string arrives here and forces the one
/// borrowed-to-owned promotion.
fn text_push_code<'a>(t: Text<'a>, c: u32) -> (r: Text<'a>)
    requires
        c < 0x10000,
    ensures
        r@ == t@ + utf8_of(c),
        r is Owned,
{
    let ghost t0 = t@;
    let mut v: Vec<u8> = match t {
        Text::Borrowed(b) => slice_to_vec(b),
        Text::Owned(v) => v,
    };
    if c < 0x80 {
        v.push(c as u8);
    } else if c < 0x800 {
        v.push((0xc0 + c / 0x40) as u8);
        v.push((0x80 + c % 0x40) as u8);
    } else {
        v.push((0xe0 + c / 0x1000) as u8);
        v.push((0x80 + (c / 0x40) % 0x40) as u8);
        v.push((0x80 + c % 0x40) as u8);
    }
    proof {
        assert(v@ =~= t0 + utf8_of(c));
    }
    Text::Owned(v)
}

/// Append an unescaped run of input bytes to gathered string content.
/// While nothing has been gathered the run itself becomes the content,
/// borrowed from the input with no copy; once content is owned, the run is
/// appended to the owned buffer.
fn text_push_slice<'a>(t: Text<'a>, b: &'a [u8]) -> (r: Text<'a>)
    ensures
        r@ == t@ + b@,
        t@.len() == 0 && t is Borrowed ==> r is Borrowed,
        t is Owned ==> r is Owned,
{
    let ghost t0 = t@;
    match t {
        Text::Borrowed(o) => {
            if o.len() == 0 {
                let r = Text::Borrowed(b);
                proof {
                    assert(t0 + b@ =~= b@);
                }
                r
            } else {
                let mut v = slice_to_vec(o);
                v.extend_from_slice(b);
                Text::Owned(v)
            }
        },
        Text::Owned(mut v) => {
            v.extend_from_slice(b);
            Text::Owned(v)
        },
    }
}

/// One fragment of a string body: either a maximal run of bytes free of
/// quote and backslash, or a single escape sequence, decoded.
pub enum StrFragment<'a> {
    Unescaped(&'a [u8]),
    Escaped(u32),
}

/// Parse one fragment at `pos`: an escape sequence where a backslash
/// stands, otherwise the maximal unescaped run starting there.
pub fn parse_str_fragment<'a>(input: &'a [u8], pos: usize) -> (r: Result<
    (usize, StrFragment<'a>),
    ParseError,
>)
    requires
        pos < input@.len(),
        input@[pos as int] != QUOTE,
    ensures
        match r {
            Ok((p, f)) => pos < p <= input@.len() && match f {
                StrFragment::Escaped(c) => spec_escape(input@, pos as int) == Some((p as int, c))
                    && c < 0x10000 && input@[pos as int] == BACKSLASH,
                StrFragment::Unescaped(b) => input@[pos as int] != BACKSLASH && b@
                    == input@.subrange(pos as int, p as int) && (forall|k: int|
                    pos <= k < p ==> input@[k] != QUOTE && input@[k] != BACKSLASH) && (p
                    == input@.len() || input@[p as int] == QUOTE || input@[p as int]
                    == BACKSLASH),
            },
            Err(e) => input@[pos as int] == BACKSLASH && spec_escape(input@, pos as int) is None,
        },
{
    if input[pos] == BACKSLASH {
        match parse_escaped_char(input, pos) {
            Ok((p, c)) => Ok((p, StrFragment::Escaped(c))),
            Err(e) => Err(e),
        }
    } else {
        let mut run_end: usize = pos + 1;
        while run_end < input.len() && input[run_end] != QUOTE && input[run_end] != BACKSLASH
            invariant
                pos < run_end <= input@.len(),
                forall|k: int| pos <= k < run_end ==> input@[k] != QUOTE && input@[k] != BACKSLASH,
            decreases input@.len() - run_end,
        {
            run_end = run_end + 1;
        }
        Ok((run_end, StrFragment::Unescaped(slice_subrange(input, pos, run_end))))
    }
}

/// Recognize a quoted string at `pos` and decode its content: unescaped
/// runs are taken as they stand, escape sequences are resolved, and the
/// content stays a borrowed view of the input until the first escape.
pub fn parse_str<'a>(input: &'a [u8], pos: usize) -> (r: Result<(usize, Text<'a>), ParseError>)
    requires
        pos <= input@.len(),
    ensures
        match r {
            Ok((p, t)) => spec_string(input@, pos as int) == Some((p as int, t@)) && pos < p
                <= input@.len() && ((forall|k: int|
                pos + 1 <= k < p - 1 ==> input@[k] != BACKSLASH) ==> t is Borrowed) && ((exists|
                k: int| pos + 1 <= k < p - 1 && input@[k] == BACKSLASH) ==> t is Owned),
            Err(e) => spec_string(input@, pos as int) is None,
        },
{
    let ghost s = input@;
    if pos >= input.len() || input[pos] != QUOTE {
        return Err(ParseError { kind: ErrorKind::ExpectedQuote, pos });
    }
    let mut cur: usize = pos + 1;
    let mut acc: Text<'a> = Text::Borrowed(slice_subrange(input, cur, cur));
    proof {
        assert(acc@ =~= Seq::<u8>::empty());
        assert(spec_str_body(s, pos as int + 1) == prepend_decoded(
            acc@,
            spec_str_body(s, cur as int),
        ));
    }
    loop
        invariant
            pos as int + 1 <= cur as int <= s.len(),
            input@ == s,
            pos < s.len() && s[pos as int] == QUOTE,
            spec_str_body(s, pos as int + 1) == prepend_decoded(acc@, spec_str_body(s, cur as int)),
            (forall|k: int| pos + 1 <= k < cur ==> s[k] != BACKSLASH) ==> acc is Borrowed,
            (exists|k: int| pos + 1 <= k < cur && s[k] == BACKSLASH) ==> acc is Owned,
            acc is Borrowed && acc@.len() > 0 ==> cur as int == s.len() || s[cur as int] == QUOTE
                || s[cur as int] == BACKSLASH,
        decreases s.len() - cur,
    {
        if cur == input.len() {
            // the input ends before the closing quote: the combined
            // diagnostic of the failed fragment and the failed terminator
            return Err(ParseError { kind: ErrorKind::UnterminatedString, pos: cur });
        }
        let b = input[cur];
        if b == QUOTE {
            proof {
                assert(spec_str_body(s, cur as int) == Some((cur as int + 1, Seq::<u8>::empty())));
                assert(acc@ + Seq::<u8>::empty() =~= acc@);
            }
            return Ok((cur + 1, acc));
        } else {
            let close_fail = ParseError { kind: ErrorKind::ExpectedQuote, pos: cur };
            match parse_str_fragment(input, cur) {
                Ok((p2, StrFragment::Escaped(c))) => {
                    proof {
                        match spec_str_body(s, p2 as int) {
                            Option::None => {},
                            Option::Some((end, d)) => {
                                assert(acc@ + (utf8_of(c) + d) =~= (acc@ + utf8_of(c)) + d);
                            },
                        }
                    }
                    acc = text_push_code(acc, c);
                    cur = p2;
                },
                Ok((p2, StrFragment::Unescaped(frag))) => {
                    proof {
                        lemma_str_body_run(s, cur as int, p2 as int);
                        match spec_str_body(s, p2 as int) {
                            Option::None => {},
                            Option::Some((end, d)) => {
                                assert(acc@ + (s.subrange(cur as int, p2 as int) + d) =~= (acc@
                                    + s.subrange(cur as int, p2 as int)) + d);
                            },
                        }
                    }
                    acc = text_push_slice(acc, frag);
                    cur = p2;
                },
                Err(e) => {
                    return Err(close_fail.or(e));
                },
            }
        }
    }
}

/// Byte-for-byte equality of two slices, used to compare object keys.
fn bytes_eq(a: &[u8], b: &[u8]) -> (r: bool)
    ensures
        r == (a@ == b@),
{
    if a.len() != b.len() {
        return false;
    }
    let mut i: usize = 0;
    while i < a.len()
        invariant
            i <= a@.len(),
            a@.len() == b@.len(),
            forall|k: int| 0 <= k < i ==> a@[k] == b@[k],
        decreases a@.len() - i,
    {
        if a[i] != b[i] {
            return false;
        }
        i = i + 1;
    }
    proof {
        assert(a@ =~= b@);
    }
    true
}

/// Fold one parsed member into an object under construction: the later of
/// two equal keys silently replaces the earlier member, a fresh key is
/// appended — last write wins.
fn insert_pair<'a>(pairs: Vec<(Text<'a>, Value<'a>)>, k: Text<'a>, v: Value<'a>) -> (r: Vec<
    (Text<'a>, Value<'a>),
>)
    ensures
        models_of_pairs(r@) == obj_insert(models_of_pairs(pairs@), k@, value_model(v)),
{
    let mut ps = pairs;
    let ghost m = models_of_pairs(ps@);
    let mut i: usize = 0;
    let n: usize = ps.len();
    while i < n
        invariant
            i <= n,
            n == ps@.len(),
            ps@ == pairs@,
            m == models_of_pairs(ps@),
            forall|j: int| 0 <= j < i ==> ps@[j].0@ != k@,
        decreases n - i,
    {
        let same = bytes_eq(ps[i].0.as_slice(), k.as_slice());
        if same {
            proof {
                lemma_models_of_pairs_index(ps@);
                lemma_obj_insert_found(m, k@, value_model(v), i as int);
                lemma_models_of_pairs_update(ps@, i as int, k, v);
            }
            ps[i] = (k, v);
            return ps;
        }
        i = i + 1;
    }
    proof {
        lemma_models_of_pairs_index(ps@);
        lemma_obj_insert_absent(m, k@, value_model(v));
        lemma_models_of_pairs_push(ps@, k, v);
    }
    ps.push((k, v));
    ps
}

/// Parse an array at `pos`: the opening bracket, optional whitespace, then
/// either the closing bracket at once or elements separated by commas. A
/// comma must be followed by an element, so a trailing comma fails.
pub fn parse_array<'a>(input: &'a [u8], pos: usize) -> (r: Result<
    (usize, Vec<Value<'a>>),
    ParseError,
>)
    requires
        pos <= input@.len(),
    ensures
        match r {
            Ok((p, vs)) => spec_array(input@, pos as int) == Some(
                (p as int, ValueModel::Array(models_of_seq(vs@))),
            ) && pos < p <= input@.len(),
            Err(e) => spec_array(input@, pos as int) is None,
        },
    decreases input@.len() - pos, 0int,
{
    let ghost s = input@;
    if pos >= input.len() || input[pos] != LBRACKET {
        return Err(ParseError { kind: ErrorKind::ExpectedValue, pos });
    }
    let mut cur: usize = ws_end(input, pos + 1);
    proof {
        lemma_skip_ws_bounds(s, pos as int + 1);
    }
    if cur < input.len() && input[cur] == RBRACKET {
        let vs: Vec<Value<'a>> = Vec::new();
        proof {
            assert(models_of_seq(vs@) =~= Seq::<ValueModel>::empty());
        }
        return Ok((cur + 1, vs));
    }
    let mut vs: Vec<Value<'a>> = Vec::new();
    proof {
        assert(models_of_seq(vs@) =~= Seq::<ValueModel>::empty());
    }
    loop
        invariant
            input@ == s,
            pos < cur <= s.len(),
            spec_array(s, pos as int) == spec_array_items(s, cur as int, models_of_seq(vs@)),
        decreases s.len() - cur,
    {
        let ghost acc = models_of_seq(vs@);
        match parse_value_at(input, cur) {
            Err(e) => {
                return Err(e);
            },
            Ok((p1, v)) => {
                proof {
                    lemma_models_of_seq_push(vs@, v);
                }
                vs.push(v);
                let p2: usize = ws_end(input, p1);
                proof {
                    lemma_skip_ws_bounds(s, p1 as int);
                }
                if p2 < input.len() && input[p2] == RBRACKET {
                    return Ok((p2 + 1, vs));
                } else if p2 < input.len() && input[p2] == COMMA {
                    let p3: usize = ws_end(input, p2 + 1);
                    proof {
                        lemma_skip_ws_bounds(s, p2 as int + 1);
                    }
                    cur = p3;
                } else {
                    return Err(ParseError { kind: ErrorKind::ExpectedCommaOrClose, pos: p2 });
                }
            },
        }
    }
}

/// Parse an object at `pos`: the opening brace, then either the closing
/// brace at once or `"key" : value` members separated by commas, folded in
/// by [`insert_pair`].
pub fn parse_object<'a>(input: &'a [u8], pos: usize) -> (r: Result<
    (usize, Vec<(Text<'a>, Value<'a>)>),
    ParseError,
>)
    requires
        pos <= input@.len(),
    ensures
        match r {
            Ok((p, ps)) => spec_object(input@, pos as int) == Some(
                (p as int, ValueModel::Object(models_of_pairs(ps@))),
            ) && pos < p <= input@.len(),
            Err(e) => spec_object(input@, pos as int) is None,
        },
    decreases input@.len() - pos, 0int,
{
    let ghost s = input@;
    if pos >= input.len() || input[pos] != LBRACE {
        return Err(ParseError { kind: ErrorKind::ExpectedValue, pos });
    }
    let mut cur: usize = ws_end(input, pos + 1);
    proof {
        lemma_skip_ws_bounds(s, pos as int + 1);
    }
    if cur < input.len() && input[cur] == RBRACE {
        let ps: Vec<(Text<'a>, Value<'a>)> = Vec::new();
        proof {
            assert(models_of_pairs(ps@) =~= Seq::<(Seq<u8>, ValueModel)>::empty());
        }
        return Ok((cur + 1, ps));
    }
    let mut ps: Vec<(Text<'a>, Value<'a>)> = Vec::new();
    proof {
        assert(models_of_pairs(ps@) =~= Seq::<(Seq<u8>, ValueModel)>::empty());
    }
    loop
        invariant
            input@ == s,
            pos < cur <= s.len(),
            spec_object(s, pos as int) == spec_object_items(s, cur as int, models_of_pairs(ps@)),
        decreases s.len() - cur,
    {
        match parse_str(input, cur) {
            Err(e) => {
                return Err(e);
            },
            Ok((p1, k)) => {
                let p2: usize = ws_end(input, p1);
                proof {
                    lemma_skip_ws_bounds(s, p1 as int);
                }
                if !(p2 < input.len() && input[p2] == COLON) {
                    return Err(ParseError { kind: ErrorKind::ExpectedColon, pos: p2 });
                }
                let p3: usize = ws_end(input, p2 + 1);
                proof {
                    lemma_skip_ws_bounds(s, p2 as int + 1);
                }
                match parse_value_at(input, p3) {
                    Err(e) => {
                        return Err(e);
                    },
                    Ok((p4, v)) => {
                        ps = insert_pair(ps, k, v);
                        let p5: usize = ws_end(input, p4);
                        proof {
                            lemma_skip_ws_bounds(s, p4 as int);
                        }
                        if p5 < input.len() && input[p5] == RBRACE {
                            return Ok((p5 + 1, ps));
                        } else if p5 < input.len() && input[p5] == COMMA {
                            let p6: usize = ws_end(input, p5 + 1);
                            proof {
                                lemma_skip_ws_bounds(s, p5 as int + 1);
                            }
                            cur = p6;
                        } else {
                            return Err(ParseError { kind: ErrorKind::ExpectedCommaOrClose, pos: p5 });
                        }
                    },
                }
            },
        }
    }
}

/// Parse one JSON value at `pos`, trying in turn `null`, `true`/`false`,
/// number, string, array, object; composites recurse through this function.
pub fn parse_value_at<'a>(input: &'a [u8], pos: usize) -> (r: Result<
    (usize, Value<'a>),
    ParseError,
>)
    requires
        pos <= input@.len(),
    ensures
        match r {
            Ok((p, v)) => spec_value(input@, pos as int) == Some((p as int, value_model(v)))
                && pos < p <= input@.len(),
            Err(e) => spec_value(input@, pos as int) is None,
        },
    decreases input@.len() - pos, 1int,
{
    if let Ok(p) = parse_null(input, pos) {
        return Ok((p, Value::Null));
    }
    if let Ok((p, b)) = parse_bool(input, pos) {
        return Ok((p, Value::Bool(b)));
    }
    match parse_number(input, pos) {
        Ok((p, lit)) => {
            return Ok((p, Value::Number(lit)));
        },
        Err(_) => {},
    }
    if pos < input.len() {
        let b = input[pos];
        if b == QUOTE {
            match parse_str(input, pos) {
                Ok((p, t)) => Ok((p, Value::Str(t))),
                Err(e) => Err(e),
            }
        } else if b == LBRACKET {
            match parse_array(input, pos) {
                Ok((p, vs)) => Ok((p, Value::Array(vs))),
                Err(e) => Err(e),
            }
        } else if b == LBRACE {
            match parse_object(input, pos) {
                Ok((p, ps)) => Ok((p, Value::Object(ps))),
                Err(e) => Err(e),
            }
        } else {
            Err(ParseError { kind: ErrorKind::ExpectedValue, pos })
        }
    } else {
        Err(ParseError { kind: ErrorKind::ExpectedValue, pos })
    }
}

/// Parse a JSON value from the start of `input`: the unconsumed remainder
/// and the value, or a structured diagnostic. Whether leftover input after
/// the value is acceptable is the caller's decision.
pub fn parse<'a>(input: &'a [u8]) -> (r: Result<(&'a [u8], Value<'a>), ParseError>)
    ensures
        match r {
            Ok((rem, v)) => spec_value(input@, 0) matches Some((p, m)) && m == value_model(v)
                && rem@ == input@.subrange(input@.len() - rem@.len(), input@.len() as int)
                && p == input@.len() - rem@.len(),
            Err(e) => spec_value(input@, 0) is None,
        },
{
    match parse_value_at(input, 0) {
        Ok((p, v)) => Ok((slice_subrange(input, p, input.len()), v)),
        Err(e) => Err(e),
    }
}

} // verus!

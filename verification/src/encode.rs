//! A reference encoder, and the proof that parsing an encoded value gives
//! that value back.
//!
//! The encoder is ghost: it renders a well-formed `ValueModel` as JSON text
//! with no whitespace, escaping quotes, backslashes and control bytes in
//! string content. The laws at the end state the round trips — re-decoding
//! an encoded string fragment reproduces its bytes exactly, and parsing an
//! encoded value yields that value, consuming the whole text — and that
//! every value the grammar itself recognizes is well-formed, so parsing
//! always lands inside the encoder's domain.

use vstd::prelude::*;
use crate::grammar::BACKSLASH;
use crate::grammar::COLON;
use crate::grammar::COMMA;
use crate::grammar::LBRACE;
use crate::grammar::LBRACKET;
use crate::grammar::MINUS;
use crate::grammar::DOT;
use crate::grammar::PLUS;
use crate::grammar::QUOTE;
use crate::grammar::RBRACE;
use crate::grammar::RBRACKET;
use crate::grammar::digits_end;
use crate::grammar::false_lit;
use crate::grammar::hex_val;
use crate::grammar::is_digit;
use crate::grammar::is_hex;
use crate::grammar::is_ws;
use crate::grammar::lit_at;
use crate::grammar::null_lit;
use crate::grammar::prepend_decoded;
use crate::grammar::skip_ws;
use crate::grammar::spec_array;
use crate::grammar::spec_array_items;
use crate::grammar::spec_escape;
use crate::grammar::spec_number;
use crate::grammar::spec_object;
use crate::grammar::spec_object_items;
use crate::grammar::spec_str_body;
use crate::grammar::spec_string;
use crate::grammar::spec_unicode_escape;
use crate::grammar::spec_value;
use crate::grammar::true_lit;
use crate::grammar::utf8_of;
use crate::value::ValueModel;
use crate::value::keys_distinct;
use crate::value::lemma_obj_insert_absent;
use crate::value::lemma_obj_insert_distinct;
use crate::value::lemma_obj_insert_elems;
use crate::value::obj_insert;

verus! {

/// One hex digit, lower case, for a value below 16.
pub open spec fn hex_digit_of(n: int) -> u8 {
    if n < 10 {
        (0x30 + n) as u8
    } else {
        (0x61 + n - 10) as u8
    }
}

/// How one byte of string content is rendered: quote and backslash behind a
/// backslash, control bytes as a `u00XX` escape, anything else as itself.
pub open spec fn escape_byte(b: u8) -> Seq<u8> {
    if b == QUOTE {
        seq![BACKSLASH, QUOTE]
    } else if b == BACKSLASH {
        seq![BACKSLASH, BACKSLASH]
    } else if b < 0x20 {
        seq![BACKSLASH, 0x75, 0x30, 0x30, hex_digit_of(b as int / 16), hex_digit_of(b as int % 16)]
    } else {
        seq![b]
    }
}

/// String content, each byte rendered in turn.
pub open spec fn encode_str_bytes(d: Seq<u8>) -> Seq<u8>
    decreases d.len(),
{
    if d.len() == 0 {
        Seq::empty()
    } else {
        escape_byte(d[0]) + encode_str_bytes(d.drop_first())
    }
}

/// A full string: quoted, content escaped.
pub open spec fn encode_string(d: Seq<u8>) -> Seq<u8> {
    seq![QUOTE] + encode_str_bytes(d) + seq![QUOTE]
}

/// The reference rendering of a value, with no whitespace.
pub open spec fn encode(m: ValueModel) -> Seq<u8>
    decreases m,
{
    match m {
        ValueModel::Null => null_lit(),
        ValueModel::Bool(b) => if b {
            true_lit()
        } else {
            false_lit()
        },
        ValueModel::Number(lit) => lit,
        ValueModel::Str(d) => encode_string(d),
        ValueModel::Array(es) => seq![LBRACKET] + encode_elems(es) + seq![RBRACKET],
        ValueModel::Object(ps) => seq![LBRACE] + encode_members(ps) + seq![RBRACE],
    }
}

/// Array elements, comma-separated.
pub open spec fn encode_elems(es: Seq<ValueModel>) -> Seq<u8>
    decreases es,
{
    if es.len() == 0 {
        Seq::empty()
    } else if es.len() == 1 {
        encode(es[0])
    } else {
        encode(es[0]) + seq![COMMA] + encode_elems(es.drop_first())
    }
}

/// Object members, `"key":value`, comma-separated.
pub open spec fn encode_members(ps: Seq<(Seq<u8>, ValueModel)>) -> Seq<u8>
    decreases ps,
{
    if ps.len() == 0 {
        Seq::empty()
    } else if ps.len() == 1 {
        encode_string(ps[0].0) + seq![COLON] + encode(ps[0].1)
    } else {
        encode_string(ps[0].0) + seq![COLON] + encode(ps[0].1) + seq![COMMA] + encode_members(
            ps.drop_first(),
        )
    }
}

/// The values the encoder is stated for: number literals are exactly what
/// the number grammar recognizes, and object keys are unique — both hold of
/// every value the parser itself produces.
pub open spec fn wf_model(m: ValueModel) -> bool
    decreases m,
{
    match m {
        ValueModel::Number(lit) => spec_number(lit, 0) == Some(lit.len() as int),
        ValueModel::Array(es) => forall|i: int| 0 <= i < es.len() ==> wf_model(#[trigger] es[i]),
        ValueModel::Object(ps) => keys_distinct(ps) && forall|i: int|
            0 <= i < ps.len() ==> wf_model(#[trigger] ps[i].1),
        _ => true,
    }
}

/// A window of `s` starting at `pos` holds exactly the bytes of `w`.
pub open spec fn window_at(s: Seq<u8>, pos: int, w: Seq<u8>) -> bool {
    0 <= pos && pos + w.len() <= s.len() && s.subrange(pos, pos + w.len() as int) == w
}

proof fn lemma_window_bytes(s: Seq<u8>, pos: int, w: Seq<u8>)
    requires
        window_at(s, pos, w),
    ensures
        forall|j: int| pos <= j < pos + w.len() ==> s[j] == w[j - pos],
{
    assert forall|j: int| pos <= j < pos + w.len() implies s[j] == w[j - pos] by {
        assert(s.subrange(pos, pos + w.len() as int)[j - pos] == s[j]);
    }
}

proof fn lemma_subwindow(s: Seq<u8>, pos: int, w: Seq<u8>, a: int, w2: Seq<u8>)
    requires
        window_at(s, pos, w),
        0 <= a,
        a + w2.len() <= w.len(),
        w.subrange(a, a + w2.len() as int) == w2,
    ensures
        window_at(s, pos + a, w2),
{
    lemma_window_bytes(s, pos, w);
    assert forall|k: int| 0 <= k < w2.len() implies s[pos + a + k] == w2[k] by {
        assert(w.subrange(a, a + w2.len() as int)[k] == w[a + k]);
        assert(s[pos + (a + k)] == w[a + k]);
    }
    assert(s.subrange(pos + a, pos + a + w2.len() as int) =~= w2);
}

/// Decoding inverts the escaping of string content: a rendered body
/// followed by the closing quote decodes to exactly the original bytes.
proof fn lemma_str_body_round(s: Seq<u8>, pos: int, d: Seq<u8>)
    requires
        window_at(s, pos, encode_str_bytes(d)),
        pos + encode_str_bytes(d).len() < s.len(),
        s[pos + encode_str_bytes(d).len()] == QUOTE,
    ensures
        spec_str_body(s, pos) == Some((pos + encode_str_bytes(d).len() + 1, d)),
    decreases d.len(),
{
    let w = encode_str_bytes(d);
    lemma_window_bytes(s, pos, w);
    if d.len() == 0 {
        assert(spec_str_body(s, pos) == Some((pos + 1, Seq::<u8>::empty())));
        assert(d =~= Seq::<u8>::empty());
    } else {
        let b = d[0];
        let eb = escape_byte(b);
        let rest = encode_str_bytes(d.drop_first());
        assert(w == eb + rest);
        assert(w.subrange(eb.len() as int, w.len() as int) =~= rest);
        lemma_subwindow(s, pos, w, eb.len() as int, rest);
        lemma_str_body_round(s, pos + eb.len(), d.drop_first());
        let inner = spec_str_body(s, pos + eb.len());
        let end = pos + w.len() + 1;
        assert(inner == Some((end, d.drop_first())));
        if b == QUOTE || b == BACKSLASH {
            assert(s[pos] == BACKSLASH && s[pos + 1] == b);
            assert(spec_escape(s, pos) == Some((pos + 2, b as u32)));
            assert(utf8_of(b as u32) =~= seq![b]);
            assert(spec_str_body(s, pos) == Some((end, seq![b] + d.drop_first())));
            assert(seq![b] + d.drop_first() =~= d);
        } else if b < 0x20 {
            assert(s[pos] == BACKSLASH && s[pos + 1] == 0x75);
            assert(s[pos + 2] == 0x30 && s[pos + 3] == 0x30);
            assert(s[pos + 4] == hex_digit_of(b as int / 16));
            assert(s[pos + 5] == hex_digit_of(b as int % 16));
            assert(is_hex(hex_digit_of(b as int / 16)) && hex_val(hex_digit_of(b as int / 16))
                == b as int / 16);
            assert(is_hex(hex_digit_of(b as int % 16)) && hex_val(hex_digit_of(b as int % 16))
                == b as int % 16);
            assert(hex_val(0x30) == 0);
            assert((b as int / 16) * 0x10 + b as int % 16 == b as int);
            assert(spec_unicode_escape(s, pos + 1) == Some((pos + 6, b as u32)));
            assert(spec_escape(s, pos) == Some((pos + 6, b as u32)));
            assert(utf8_of(b as u32) =~= seq![b]);
            assert(spec_str_body(s, pos) == Some((end, seq![b] + d.drop_first())));
            assert(seq![b] + d.drop_first() =~= d);
        } else {
            assert(s[pos] == b && b != QUOTE && b != BACKSLASH);
            assert(spec_str_body(s, pos) == prepend_decoded(seq![b], inner));
            assert(seq![b] + d.drop_first() =~= d);
        }
    }
}

/// The rendering of a value is always followed, in a larger text, by one of
/// the bytes that cannot extend it: a comma, a closing delimiter, or the
/// end of the input.
pub open spec fn at_terminator(s: Seq<u8>, p: int) -> bool {
    p == s.len() || (0 <= p < s.len() && (s[p] == COMMA || s[p] == RBRACKET || s[p] == RBRACE))
}

proof fn lemma_digits_end_props(s: Seq<u8>, pos: int)
    requires
        0 <= pos <= s.len(),
    ensures
        pos <= digits_end(s, pos) <= s.len(),
        forall|k: int| pos <= k < digits_end(s, pos) ==> is_digit(s[k]),
        digits_end(s, pos) < s.len() ==> !is_digit(s[digits_end(s, pos)]),
    decreases s.len() - pos,
{
    if pos < s.len() && is_digit(s[pos]) {
        lemma_digits_end_props(s, pos + 1);
    }
}

proof fn lemma_digits_run(s: Seq<u8>, a: int, b: int)
    requires
        0 <= a <= b <= s.len(),
        forall|k: int| a <= k < b ==> is_digit(s[k]),
        b < s.len() ==> !is_digit(s[b]),
    ensures
        digits_end(s, a) == b,
    decreases b - a,
{
    if a < b {
        lemma_digits_run(s, a + 1, b);
    }
}

/// A number literal embedded in a larger text, up against a terminator, is
/// recognized as exactly itself: the longest match stops at its end.
proof fn lemma_number_round(s: Seq<u8>, pos: int, lit: Seq<u8>)
    requires
        spec_number(lit, 0) == Some(lit.len() as int),
        window_at(s, pos, lit),
        at_terminator(s, pos + lit.len()),
    ensures
        spec_number(s, pos) == Some(pos + lit.len()),
{
    let ln = lit.len() as int;
    let t = pos + ln;
    lemma_window_bytes(s, pos, lit);
    // the structure of the match on the literal itself
    let q0: int = if 0 < ln && lit[0] == MINUS {
        1
    } else {
        0
    };
    assert(q0 < ln && is_digit(lit[q0]));
    let q1: int = digits_end(lit, q0);
    lemma_digits_end_props(lit, q0);
    let q2: int = if q1 + 1 < ln && lit[q1] == DOT && is_digit(lit[q1 + 1]) {
        digits_end(lit, q1 + 1)
    } else {
        q1
    };
    if q1 + 1 < ln && lit[q1] == DOT && is_digit(lit[q1 + 1]) {
        lemma_digits_end_props(lit, q1 + 1);
    }
    let q3: int = if q2 < ln && (lit[q2] == 0x65 || lit[q2] == 0x45) {
        let qq: int = if q2 + 1 < ln && (lit[q2 + 1] == PLUS || lit[q2 + 1] == MINUS) {
            q2 + 2
        } else {
            q2 + 1
        };
        if qq < ln && is_digit(lit[qq]) {
            digits_end(lit, qq)
        } else {
            q2
        }
    } else {
        q2
    };
    assert(q3 == ln);
    // the same structure on the embedding text
    let p0: int = if pos < s.len() && s[pos] == MINUS {
        pos + 1
    } else {
        pos
    };
    assert(p0 == pos + q0);
    assert(is_digit(s[p0]));
    lemma_digits_run(s, pos + q0, pos + q1);
    let p1: int = pos + q1;
    assert(digits_end(s, p0) == p1);
    // the fractional part matches on one side exactly when it does on the other
    let p2: int = pos + q2;
    if q1 + 1 < ln && lit[q1] == DOT && is_digit(lit[q1 + 1]) {
        assert(p1 + 1 < s.len() && s[p1] == DOT && is_digit(s[p1 + 1]));
        lemma_digits_run(s, pos + q1 + 1, pos + q2);
        assert(digits_end(s, p1 + 1) == p2);
    } else {
        assert(q2 == q1);
        if p1 + 1 < s.len() && s[p1] == DOT && is_digit(s[p1 + 1]) {
            if q1 == ln {
                assert(s[p1] == s[t]);
                assert(false);
            } else if lit[q1] != DOT {
                assert(false);
            } else if q1 + 1 == ln {
                assert(!is_digit(s[t]));
                assert(false);
            } else {
                assert(!is_digit(lit[q1 + 1]));
                assert(false);
            }
        }
    }
    // likewise the exponent part
    if q2 < ln && (lit[q2] == 0x65 || lit[q2] == 0x45) {
        let qq: int = if q2 + 1 < ln && (lit[q2 + 1] == PLUS || lit[q2 + 1] == MINUS) {
            q2 + 2
        } else {
            q2 + 1
        };
        if !(qq < ln && is_digit(lit[qq])) {
            assert(q3 == q2);
            assert(false);
        }
        assert(digits_end(lit, qq) == ln);
        lemma_digits_end_props(lit, qq);
        assert(s[p2] == lit[q2]);
        if q2 + 1 < ln && (lit[q2 + 1] == PLUS || lit[q2 + 1] == MINUS) {
            assert(p2 + 1 < s.len() && (s[p2 + 1] == PLUS || s[p2 + 1] == MINUS));
            lemma_digits_run(s, pos + qq, t);
            assert(spec_number(s, pos) == Some(t));
        } else {
            assert(qq == q2 + 1);
            assert(qq < ln);
            assert(!(s[p2 + 1] == PLUS || s[p2 + 1] == MINUS));
            lemma_digits_run(s, pos + qq, t);
            assert(spec_number(s, pos) == Some(t));
        }
    } else {
        if q2 == ln {
            if t < s.len() {
                assert(s[t] != 0x65 && s[t] != 0x45);
            }
            assert(spec_number(s, pos) == Some(t));
        } else {
            assert(q3 == q2);
            assert(false);
        }
    }
}

/// Re-decoding an already-decoded string fragment through the reference
/// encoder reproduces the same bytes: for any content `d`, the encoded
/// string parses back to exactly `d`, consuming the whole rendering.
pub proof fn lemma_string_round_trip(d: Seq<u8>)
    ensures
        spec_string(encode_string(d), 0) == Some((encode_string(d).len() as int, d)),
{
    let s = encode_string(d);
    let body = encode_str_bytes(d);
    assert(s[0] == QUOTE);
    assert(s.subrange(1, 1 + body.len() as int) =~= body);
    assert(s[1 + body.len() as int] == QUOTE);
    lemma_str_body_round(s, 1, d);
}

/// The bytes any rendered value can start with; none of them is whitespace
/// or a closing delimiter, which is what the collection proofs rely on.
pub open spec fn is_value_start(b: u8) -> bool {
    b == 0x6e || b == 0x74 || b == 0x66 || b == MINUS || is_digit(b) || b == QUOTE || b == LBRACKET
        || b == LBRACE
}

proof fn lemma_number_shape(lit: Seq<u8>)
    requires
        spec_number(lit, 0) == Some(lit.len() as int),
    ensures
        lit.len() > 0,
        lit[0] == MINUS || is_digit(lit[0]),
{
    let ln = lit.len() as int;
    let q0: int = if 0 < ln && lit[0] == MINUS {
        1
    } else {
        0
    };
    assert(q0 < ln && is_digit(lit[q0]));
}

proof fn lemma_encode_starts(m: ValueModel)
    requires
        wf_model(m),
    ensures
        encode(m).len() > 0,
        is_value_start(encode(m)[0]),
{
    match m {
        ValueModel::Number(lit) => {
            lemma_number_shape(lit);
        },
        _ => {},
    }
}

proof fn lemma_lit_first(s: Seq<u8>, pos: int, lit: Seq<u8>)
    requires
        lit.len() > 0,
        lit_at(s, pos, lit),
    ensures
        s[pos] == lit[0],
{
    assert(s.subrange(pos, pos + lit.len() as int)[0] == s[pos]);
}

proof fn lemma_not_keyword(s: Seq<u8>, pos: int, b0: u8)
    requires
        0 <= pos < s.len(),
        s[pos] == b0,
        b0 != 0x6e,
        b0 != 0x74,
        b0 != 0x66,
    ensures
        !lit_at(s, pos, null_lit()),
        !lit_at(s, pos, true_lit()),
        !lit_at(s, pos, false_lit()),
{
    if lit_at(s, pos, null_lit()) {
        lemma_lit_first(s, pos, null_lit());
    }
    if lit_at(s, pos, true_lit()) {
        lemma_lit_first(s, pos, true_lit());
    }
    if lit_at(s, pos, false_lit()) {
        lemma_lit_first(s, pos, false_lit());
    }
}

/// Parsing inverts encoding at any position: a rendered well-formed value
/// embedded in a larger text, up against a terminator, parses to exactly
/// that value.
#[verifier::rlimit(50)]
proof fn lemma_value_round(s: Seq<u8>, pos: int, m: ValueModel)
    requires
        wf_model(m),
        window_at(s, pos, encode(m)),
        at_terminator(s, pos + encode(m).len()),
    ensures
        spec_value(s, pos) == Some((pos + encode(m).len(), m)),
    decreases m, 0int,
{
    let w = encode(m);
    lemma_window_bytes(s, pos, w);
    match m {
        ValueModel::Null => {
            assert(lit_at(s, pos, null_lit()));
        },
        ValueModel::Bool(b) => {
            if lit_at(s, pos, null_lit()) {
                lemma_lit_first(s, pos, null_lit());
                assert(false);
            }
            if b {
                assert(lit_at(s, pos, true_lit()));
            } else {
                if lit_at(s, pos, true_lit()) {
                    lemma_lit_first(s, pos, true_lit());
                    assert(false);
                }
                assert(lit_at(s, pos, false_lit()));
            }
        },
        ValueModel::Number(lit) => {
            lemma_number_shape(lit);
            assert(s[pos] == lit[0]);
            lemma_not_keyword(s, pos, lit[0]);
            lemma_number_round(s, pos, lit);
            assert(s.subrange(pos, pos + lit.len() as int) == lit);
        },
        ValueModel::Str(d) => {
            assert(s[pos] == QUOTE);
            lemma_not_keyword(s, pos, QUOTE);
            assert(spec_number(s, pos) is None);
            let body = encode_str_bytes(d);
            assert(w == seq![QUOTE] + body + seq![QUOTE]);
            assert(w.subrange(1, 1 + body.len() as int) =~= body);
            lemma_subwindow(s, pos, w, 1, body);
            assert(s[pos + 1 + body.len() as int] == w[1 + body.len() as int]);
            lemma_str_body_round(s, pos + 1, d);
        },
        ValueModel::Array(es) => {
            assert(s[pos] == LBRACKET);
            lemma_not_keyword(s, pos, LBRACKET);
            assert(spec_number(s, pos) is None);
            lemma_array_round(s, pos, es);
        },
        ValueModel::Object(ps) => {
            assert(s[pos] == LBRACE);
            lemma_not_keyword(s, pos, LBRACE);
            assert(spec_number(s, pos) is None);
            lemma_object_round(s, pos, ps);
        },
    }
}

/// The array case of the round trip: brackets around the rendered element
/// list.
#[verifier::rlimit(50)]
proof fn lemma_array_round(s: Seq<u8>, pos: int, es: Seq<ValueModel>)
    requires
        wf_model(ValueModel::Array(es)),
        window_at(s, pos, encode(ValueModel::Array(es))),
    ensures
        spec_array(s, pos) == Some(
            (pos + encode(ValueModel::Array(es)).len(), ValueModel::Array(es)),
        ),
    decreases es, 1int,
{
    let w = encode(ValueModel::Array(es));
    let el = encode_elems(es);
    lemma_window_bytes(s, pos, w);
    assert(w == seq![LBRACKET] + el + seq![RBRACKET]);
    assert(s[pos] == LBRACKET);
    if es.len() == 0 {
        assert(s[pos + 1] == RBRACKET);
        assert(skip_ws(s, pos + 1) == pos + 1);
        assert(es =~= Seq::<ValueModel>::empty());
        assert(spec_array(s, pos) == Some((pos + 2, ValueModel::Array(Seq::empty()))));
    } else {
        assert(wf_model(es[0]));
        lemma_encode_starts(es[0]);
        assert(el[0] == encode(es[0])[0]);
        assert(s[pos + 1] == el[0]);
        assert(!is_ws(s[pos + 1]) && s[pos + 1] != RBRACKET);
        assert(skip_ws(s, pos + 1) == pos + 1);
        assert(w.subrange(1, 1 + el.len() as int) =~= el);
        lemma_subwindow(s, pos, w, 1, el);
        assert(s[pos + 1 + el.len() as int] == RBRACKET);
        lemma_elems_round(s, pos + 1, es, Seq::empty());
        assert(Seq::<ValueModel>::empty() + es =~= es);
    }
}

/// The object case of the round trip: braces around the rendered member
/// list.
#[verifier::rlimit(50)]
proof fn lemma_object_round(s: Seq<u8>, pos: int, ps: Seq<(Seq<u8>, ValueModel)>)
    requires
        wf_model(ValueModel::Object(ps)),
        window_at(s, pos, encode(ValueModel::Object(ps))),
    ensures
        spec_object(s, pos) == Some(
            (pos + encode(ValueModel::Object(ps)).len(), ValueModel::Object(ps)),
        ),
    decreases ps, 1int,
{
    let w = encode(ValueModel::Object(ps));
    let el = encode_members(ps);
    lemma_window_bytes(s, pos, w);
    assert(w == seq![LBRACE] + el + seq![RBRACE]);
    assert(s[pos] == LBRACE);
    if ps.len() == 0 {
        assert(s[pos + 1] == RBRACE);
        assert(skip_ws(s, pos + 1) == pos + 1);
        assert(ps =~= Seq::<(Seq<u8>, ValueModel)>::empty());
        assert(spec_object(s, pos) == Some((pos + 2, ValueModel::Object(Seq::empty()))));
    } else {
        let ks = encode_string(ps[0].0);
        assert(el[0] == ks[0]);
        assert(ks[0] == QUOTE);
        assert(s[pos + 1] == QUOTE);
        assert(!is_ws(s[pos + 1]) && s[pos + 1] != RBRACE);
        assert(skip_ws(s, pos + 1) == pos + 1);
        assert(w.subrange(1, 1 + el.len() as int) =~= el);
        lemma_subwindow(s, pos, w, 1, el);
        assert(s[pos + 1 + el.len() as int] == RBRACE);
        lemma_members_round(s, pos + 1, ps, Seq::empty());
        assert(Seq::<(Seq<u8>, ValueModel)>::empty() + ps =~= ps);
    }
}

/// The element list of a rendered array, read from the first element's
/// first byte up through the closing bracket, parses to the elements in
/// order, appended to whatever was gathered before.
#[verifier::rlimit(50)]
proof fn lemma_elems_round(s: Seq<u8>, pos: int, es: Seq<ValueModel>, acc: Seq<ValueModel>)
    requires
        es.len() > 0,
        forall|i: int| 0 <= i < es.len() ==> wf_model(#[trigger] es[i]),
        window_at(s, pos, encode_elems(es)),
        pos + encode_elems(es).len() < s.len(),
        s[pos + encode_elems(es).len()] == RBRACKET,
    ensures
        spec_array_items(s, pos, acc) == Some(
            (pos + encode_elems(es).len() + 1, ValueModel::Array(acc + es)),
        ),
    decreases es, 0int,
{
    let el = encode_elems(es);
    let e0 = encode(es[0]);
    assert(wf_model(es[0]));
    lemma_encode_starts(es[0]);
    lemma_window_bytes(s, pos, el);
    if es.len() == 1 {
        assert(el == e0);
        lemma_value_round(s, pos, es[0]);
        let p1 = pos + e0.len();
        assert(skip_ws(s, p1) == p1);
        assert(spec_array_items(s, pos, acc) == Some(
            (p1 + 1, ValueModel::Array(acc.push(es[0]))),
        ));
        assert(acc.push(es[0]) =~= acc + es);
    } else {
        let rest = encode_elems(es.drop_first());
        assert(el == e0 + seq![COMMA] + rest);
        assert(el.subrange(0, e0.len() as int) =~= e0);
        lemma_subwindow(s, pos, el, 0, e0);
        let p1 = pos + e0.len();
        assert(s[p1] == COMMA);
        lemma_value_round(s, pos, es[0]);
        assert(skip_ws(s, p1) == p1);
        assert(s[p1] != RBRACKET);
        assert(es.drop_first()[0] == es[1]);
        assert(wf_model(es[1]));
        lemma_encode_starts(es[1]);
        assert(rest[0] == encode(es[1])[0]);
        assert(s[p1 + 1] == el[e0.len() as int + 1]);
        assert(el[e0.len() as int + 1] == rest[0]);
        assert(!is_ws(s[p1 + 1]));
        assert(skip_ws(s, p1 + 1) == p1 + 1);
        assert(el.subrange(e0.len() as int + 1, el.len() as int) =~= rest);
        lemma_subwindow(s, pos, el, e0.len() as int + 1, rest);
        lemma_elems_round(s, p1 + 1, es.drop_first(), acc.push(es[0]));
        assert(acc.push(es[0]) + es.drop_first() =~= acc + es);
    }
}

/// A rendered key string embedded in a larger text parses to exactly that
/// key.
proof fn lemma_key_round(s: Seq<u8>, pos: int, k: Seq<u8>)
    requires
        window_at(s, pos, encode_string(k)),
        pos + encode_string(k).len() <= s.len(),
    ensures
        spec_string(s, pos) == Some((pos + encode_string(k).len(), k)),
{
    let ks = encode_string(k);
    let kb = encode_str_bytes(k);
    lemma_window_bytes(s, pos, ks);
    assert(s[pos] == QUOTE);
    assert(ks.subrange(1, 1 + kb.len() as int) =~= kb);
    lemma_subwindow(s, pos, ks, 1, kb);
    assert(s[pos + 1 + kb.len() as int] == ks[1 + kb.len() as int]);
    lemma_str_body_round(s, pos + 1, k);
}

/// One rendered member, `"key":value`, embedded in a larger text and up
/// against a terminator: the key parses as a string, the colon follows it
/// at once, and the value parses from right after the colon.
proof fn lemma_member_round(s: Seq<u8>, pos: int, k: Seq<u8>, v: ValueModel)
    requires
        wf_model(v),
        window_at(s, pos, encode_string(k) + seq![COLON] + encode(v)),
        at_terminator(s, pos + (encode_string(k) + seq![COLON] + encode(v)).len()),
    ensures
        spec_string(s, pos) == Some((pos + encode_string(k).len(), k)),
        s[pos + encode_string(k).len()] == COLON,
        skip_ws(s, pos + encode_string(k).len()) == pos + encode_string(k).len(),
        skip_ws(s, pos + encode_string(k).len() + 1) == pos + encode_string(k).len() + 1,
        spec_value(s, pos + encode_string(k).len() + 1) == Some(
            (pos + (encode_string(k) + seq![COLON] + encode(v)).len(), v),
        ),
    decreases v, 1int,
{
    let mw = encode_string(k) + seq![COLON] + encode(v);
    let ks = encode_string(k);
    let e0 = encode(v);
    lemma_encode_starts(v);
    lemma_window_bytes(s, pos, mw);
    assert(mw.subrange(0, ks.len() as int) =~= ks);
    lemma_subwindow(s, pos, mw, 0, ks);
    lemma_key_round(s, pos, k);
    let pk = pos + ks.len();
    assert(s[pk] == COLON);
    assert(skip_ws(s, pk) == pk);
    let pv = pk + 1;
    assert(s[pv] == mw[ks.len() as int + 1]);
    assert(mw[ks.len() as int + 1] == e0[0]);
    assert(!is_ws(s[pv]));
    assert(skip_ws(s, pv) == pv);
    assert(mw.subrange(ks.len() as int + 1, mw.len() as int) =~= e0);
    lemma_subwindow(s, pos, mw, ks.len() as int + 1, e0);
    lemma_value_round(s, pv, v);
}

/// The member list of a rendered object, read from the first key's opening
/// quote up through the closing brace, parses to the members in order,
/// appended to whatever was gathered before — no key collides, so each
/// insertion appends.
#[verifier::rlimit(100)]
proof fn lemma_members_round(
    s: Seq<u8>,
    pos: int,
    ps: Seq<(Seq<u8>, ValueModel)>,
    acc: Seq<(Seq<u8>, ValueModel)>,
)
    requires
        ps.len() > 0,
        keys_distinct(ps),
        forall|i: int| 0 <= i < ps.len() ==> wf_model(#[trigger] ps[i].1),
        forall|i: int, j: int|
            0 <= i < acc.len() && 0 <= j < ps.len() ==> acc[i].0 != ps[j].0,
        window_at(s, pos, encode_members(ps)),
        pos + encode_members(ps).len() < s.len(),
        s[pos + encode_members(ps).len()] == RBRACE,
    ensures
        spec_object_items(s, pos, acc) == Some(
            (pos + encode_members(ps).len() + 1, ValueModel::Object(acc + ps)),
        ),
    decreases ps, 0int,
{
    let el = encode_members(ps);
    let k0 = ps[0].0;
    let v0 = ps[0].1;
    let ks = encode_string(k0);
    let e0 = encode(v0);
    let mw = ks + seq![COLON] + e0;
    assert(wf_model(v0));
    lemma_window_bytes(s, pos, el);
    let pk = pos + ks.len();
    let pv = pk + 1;
    let p4 = pv + e0.len();
    // the fold: the key is fresh, so insertion appends
    lemma_obj_insert_absent(acc, k0, v0);
    assert((k0, v0) == ps[0]);
    if ps.len() == 1 {
        assert(el == mw);
        lemma_member_round(s, pos, k0, v0);
        assert(p4 == pos + el.len());
        assert(s[p4] == RBRACE);
        assert(skip_ws(s, p4) == p4);
        assert(spec_object_items(s, pos, acc) == Some(
            (p4 + 1, ValueModel::Object(acc.push(ps[0]))),
        ));
        assert(acc.push(ps[0]) =~= acc + ps);
    } else {
        let rest = encode_members(ps.drop_first());
        assert(el =~= mw + seq![COMMA] + rest);
        assert(el.subrange(0, mw.len() as int) =~= mw);
        lemma_subwindow(s, pos, el, 0, mw);
        assert(s[pos + mw.len()] == el[mw.len() as int]);
        assert(el[mw.len() as int] == COMMA);
        lemma_member_round(s, pos, k0, v0);
        assert(p4 == pos + mw.len());
        assert(s[p4] == COMMA);
        assert(skip_ws(s, p4) == p4);
        assert(s[p4] != RBRACE);
        let ks1 = encode_string(ps.drop_first()[0].0);
        assert(rest[0] == ks1[0]);
        assert(ks1[0] == QUOTE);
        assert(s[p4 + 1] == el[mw.len() as int + 1]);
        assert(el[mw.len() as int + 1] == rest[0]);
        assert(!is_ws(s[p4 + 1]));
        assert(skip_ws(s, p4 + 1) == p4 + 1);
        assert(el.subrange(mw.len() as int + 1, el.len() as int) =~= rest);
        lemma_subwindow(s, pos, el, mw.len() as int + 1, rest);
        assert forall|i: int, j: int|
            0 <= i < acc.push(ps[0]).len() && 0 <= j < ps.drop_first().len() implies acc.push(
            ps[0],
        )[i].0 != ps.drop_first()[j].0 by {
            if i < acc.len() {
                assert(acc[i].0 != ps[j + 1].0);
            } else {
                assert(keys_distinct(ps));
                assert(ps[0].0 != ps[j + 1].0);
            }
        }
        lemma_members_round(s, p4 + 1, ps.drop_first(), acc.push(ps[0]));
        assert(acc.push(ps[0]) + ps.drop_first() =~= acc + ps);
    }
}

/// A recognized number literal, cut out of its text, is recognized as a
/// whole literal on its own.
#[verifier::rlimit(50)]
proof fn lemma_number_extract(s: Seq<u8>, pos: int, end: int)
    requires
        spec_number(s, pos) == Some(end),
    ensures
        pos <= end <= s.len(),
        spec_number(s.subrange(pos, end), 0) == Some(end - pos),
{
    let lit = s.subrange(pos, end);
    let ln = end - pos;
    // the structure of the match on the full text
    let p0: int = if pos < s.len() && s[pos] == MINUS {
        pos + 1
    } else {
        pos
    };
    assert(p0 < s.len() && is_digit(s[p0]));
    let p1: int = digits_end(s, p0);
    lemma_digits_end_props(s, p0);
    let p2: int = if p1 + 1 < s.len() && s[p1] == DOT && is_digit(s[p1 + 1]) {
        digits_end(s, p1 + 1)
    } else {
        p1
    };
    if p1 + 1 < s.len() && s[p1] == DOT && is_digit(s[p1 + 1]) {
        lemma_digits_end_props(s, p1 + 1);
    }
    let p3: int = if p2 < s.len() && (s[p2] == 0x65 || s[p2] == 0x45) {
        let q: int = if p2 + 1 < s.len() && (s[p2 + 1] == PLUS || s[p2 + 1] == MINUS) {
            p2 + 2
        } else {
            p2 + 1
        };
        if q < s.len() && is_digit(s[q]) {
            digits_end(s, q)
        } else {
            p2
        }
    } else {
        p2
    };
    if p2 < s.len() && (s[p2] == 0x65 || s[p2] == 0x45) {
        let q: int = if p2 + 1 < s.len() && (s[p2 + 1] == PLUS || s[p2 + 1] == MINUS) {
            p2 + 2
        } else {
            p2 + 1
        };
        if q < s.len() && is_digit(s[q]) {
            lemma_digits_end_props(s, q);
        }
    }
    assert(p3 == end);
    assert(pos <= p0 <= p1 <= p2 <= p3);
    assert(forall|k: int| 0 <= k < ln ==> lit[k] == s[pos + k]);
    // the same structure inside the literal
    let q0: int = p0 - pos;
    assert((0 < ln && lit[0] == MINUS) <==> (pos < s.len() && s[pos] == MINUS));
    assert(q0 < ln && is_digit(lit[q0]));
    lemma_digits_run(lit, q0, p1 - pos);
    let q1: int = p1 - pos;
    assert(digits_end(lit, q0) == q1);
    if p1 + 1 < s.len() && s[p1] == DOT && is_digit(s[p1 + 1]) {
        assert(p1 + 1 < p2);
        assert(q1 + 1 < ln && lit[q1] == DOT && is_digit(lit[q1 + 1]));
        lemma_digits_run(lit, q1 + 1, p2 - pos);
    } else {
        assert(p2 == p1);
        if q1 + 1 < ln && lit[q1] == DOT && is_digit(lit[q1 + 1]) {
            assert(s[p1] == DOT && is_digit(s[p1 + 1]) && p1 + 1 < s.len());
            assert(false);
        }
    }
    let q2: int = p2 - pos;
    if p2 < s.len() && (s[p2] == 0x65 || s[p2] == 0x45) {
        let q: int = if p2 + 1 < s.len() && (s[p2 + 1] == PLUS || s[p2 + 1] == MINUS) {
            p2 + 2
        } else {
            p2 + 1
        };
        if q < s.len() && is_digit(s[q]) {
            assert(q < p3);
            assert(q2 < ln && (lit[q2] == 0x65 || lit[q2] == 0x45));
            if p2 + 1 < s.len() && (s[p2 + 1] == PLUS || s[p2 + 1] == MINUS) {
                assert(p2 + 1 < q && q <= p3);
                assert(q2 + 1 < ln && (lit[q2 + 1] == PLUS || lit[q2 + 1] == MINUS));
                lemma_digits_run(lit, q - pos, ln);
                assert(spec_number(lit, 0) == Some(ln));
            } else {
                assert(!(q2 + 1 < ln && (lit[q2 + 1] == PLUS || lit[q2 + 1] == MINUS)));
                lemma_digits_run(lit, q - pos, ln);
                assert(spec_number(lit, 0) == Some(ln));
            }
        } else {
            assert(p3 == p2);
            assert(q2 == ln);
            assert(spec_number(lit, 0) == Some(ln));
        }
    } else {
        assert(p3 == p2);
        assert(q2 == ln);
        if q2 < ln {
            assert(false);
        }
        assert(spec_number(lit, 0) == Some(ln));
    }
}

/// Every value the grammar recognizes is well-formed: its object keys are
/// unique at every depth, and its number literals are exactly what the
/// number grammar recognizes on their own — so every parsed value lies in
/// the reference encoder's domain.
pub proof fn lemma_parsed_value_wf(s: Seq<u8>, pos: int)
    ensures
        spec_value(s, pos) matches Some((p, m)) ==> wf_model(m),
    decreases s.len() - pos, 1int,
{
    match spec_value(s, pos) {
        Option::None => {},
        Option::Some((p, m)) => {
            if lit_at(s, pos, null_lit()) {
            } else if lit_at(s, pos, true_lit()) {
            } else if lit_at(s, pos, false_lit()) {
            } else {
                match spec_number(s, pos) {
                    Option::Some(end) => {
                        lemma_number_extract(s, pos, end);
                    },
                    Option::None => {
                        if 0 <= pos < s.len() && s[pos] == QUOTE {
                        } else if 0 <= pos < s.len() && s[pos] == LBRACKET {
                            lemma_parsed_array_wf(s, pos);
                        } else if 0 <= pos < s.len() && s[pos] == LBRACE {
                            lemma_parsed_object_wf(s, pos);
                        }
                    },
                }
            }
        },
    }
}

proof fn lemma_parsed_array_wf(s: Seq<u8>, pos: int)
    ensures
        spec_array(s, pos) matches Some((p, m)) ==> wf_model(m),
    decreases s.len() - pos, 0int,
{
    let q = skip_ws(s, pos + 1);
    if 0 <= pos < s.len() && s[pos] == LBRACKET && pos < q <= s.len() {
        if q < s.len() && s[q] == RBRACKET {
        } else {
            lemma_parsed_array_items_wf(s, q, Seq::empty());
        }
    }
}

proof fn lemma_parsed_array_items_wf(s: Seq<u8>, pos: int, acc: Seq<ValueModel>)
    requires
        forall|i: int| 0 <= i < acc.len() ==> wf_model(#[trigger] acc[i]),
    ensures
        spec_array_items(s, pos, acc) matches Some((p, m)) ==> wf_model(m),
    decreases s.len() - pos, 2int,
{
    match spec_value(s, pos) {
        Option::None => {},
        Option::Some((p1, v)) => {
            lemma_parsed_value_wf(s, pos);
            let acc2 = acc.push(v);
            assert(forall|i: int| 0 <= i < acc2.len() ==> wf_model(#[trigger] acc2[i]));
            let p2 = skip_ws(s, p1);
            if p2 < s.len() && s[p2] == RBRACKET {
            } else if p2 < s.len() && s[p2] == COMMA {
                let p3 = skip_ws(s, p2 + 1);
                if pos < p3 <= s.len() {
                    lemma_parsed_array_items_wf(s, p3, acc2);
                }
            }
        },
    }
}

proof fn lemma_parsed_object_wf(s: Seq<u8>, pos: int)
    ensures
        spec_object(s, pos) matches Some((p, m)) ==> wf_model(m),
    decreases s.len() - pos, 0int,
{
    let q = skip_ws(s, pos + 1);
    if 0 <= pos < s.len() && s[pos] == LBRACE && pos < q <= s.len() {
        if q < s.len() && s[q] == RBRACE {
        } else {
            lemma_parsed_object_items_wf(s, q, Seq::empty());
        }
    }
}

proof fn lemma_parsed_object_items_wf(s: Seq<u8>, pos: int, acc: Seq<(Seq<u8>, ValueModel)>)
    requires
        keys_distinct(acc),
        forall|i: int| 0 <= i < acc.len() ==> wf_model(#[trigger] acc[i].1),
    ensures
        spec_object_items(s, pos, acc) matches Some((p, m)) ==> wf_model(m),
    decreases s.len() - pos, 2int,
{
    match spec_string(s, pos) {
        Option::None => {},
        Option::Some((p1, k)) => {
            let p2 = skip_ws(s, p1);
            if p2 < s.len() && s[p2] == COLON {
                let p3 = skip_ws(s, p2 + 1);
                if pos < p3 <= s.len() {
                    match spec_value(s, p3) {
                        Option::None => {},
                        Option::Some((p4, v)) => {
                            lemma_parsed_value_wf(s, p3);
                            let acc2 = obj_insert(acc, k, v);
                            lemma_obj_insert_distinct(acc, k, v);
                            lemma_obj_insert_elems(acc, k, v);
                            assert forall|i: int| 0 <= i < acc2.len() implies wf_model(
                                #[trigger] acc2[i].1,
                            ) by {
                                if acc2[i] != (k, v) {
                                    let j = choose|j: int|
                                        0 <= j < acc.len() && acc[j] == acc2[i];
                                    assert(wf_model(acc[j].1));
                                }
                            }
                            let p5 = skip_ws(s, p4);
                            if p5 < s.len() && s[p5] == RBRACE {
                            } else if p5 < s.len() && s[p5] == COMMA {
                                let p6 = skip_ws(s, p5 + 1);
                                if pos < p6 <= s.len() {
                                    lemma_parsed_object_items_wf(s, p6, acc2);
                                }
                            }
                        },
                    }
                }
            }
        },
    }
}

/// Parsing inverts encoding: any well-formed value, rendered by the
/// reference encoder, parses back to exactly that value — members in
/// insertion order, keys unique — consuming the whole text.
pub proof fn lemma_encode_round_trip(m: ValueModel)
    requires
        wf_model(m),
    ensures
        spec_value(encode(m), 0) == Some((encode(m).len() as int, m)),
{
    let s = encode(m);
    assert(s.subrange(0, s.len() as int) =~= s);
    lemma_value_round(s, 0, m);
}

} // verus!

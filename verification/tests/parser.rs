use json_parse::ErrorKind;
use json_parse::Text;
use json_parse::Value;
use json_parse::parse;
use json_parse::parser::parse_bool;
use json_parse::parser::parse_null;
use json_parse::parser::parse_number;
use json_parse::parser::parse_str;

fn number_of(v: &Value) -> f64 {
    match v {
        Value::Number(lit) => std::str::from_utf8(lit).unwrap().parse::<f64>().unwrap(),
        _ => panic!("expected a number"),
    }
}

#[test]
fn null_consumes_all_input() {
    let (rest, v) = parse(b"null").unwrap();
    assert!(matches!(v, Value::Null));
    assert_eq!(rest.len(), 0);
}

#[test]
fn bool_literals() {
    let (rest, v) = parse(b"true").unwrap();
    assert!(matches!(v, Value::Bool(true)));
    assert_eq!(rest.len(), 0);
    let (rest, v) = parse(b"false").unwrap();
    assert!(matches!(v, Value::Bool(false)));
    assert_eq!(rest.len(), 0);
}

#[test]
fn empty_collections() {
    let (rest, v) = parse(b"[]").unwrap();
    match v {
        Value::Array(vs) => assert_eq!(vs.len(), 0),
        _ => panic!("expected an array"),
    }
    assert_eq!(rest.len(), 0);
    let (rest, v) = parse(b"{}").unwrap();
    match v {
        Value::Object(ps) => assert_eq!(ps.len(), 0),
        _ => panic!("expected an object"),
    }
    assert_eq!(rest.len(), 0);
}

#[test]
fn array_of_three_numbers() {
    let (rest, v) = parse(b"[1, 2, 3]").unwrap();
    assert_eq!(rest.len(), 0);
    match v {
        Value::Array(vs) => {
            assert_eq!(vs.len(), 3);
            assert_eq!(number_of(&vs[0]), 1.0);
            assert_eq!(number_of(&vs[1]), 2.0);
            assert_eq!(number_of(&vs[2]), 3.0);
        },
        _ => panic!("expected an array"),
    }
}

#[test]
fn nested_arrays() {
    let (rest, v) = parse(b"[[1,2],[3]]").unwrap();
    assert_eq!(rest.len(), 0);
    match v {
        Value::Array(vs) => {
            assert_eq!(vs.len(), 2);
            match &vs[0] {
                Value::Array(inner) => {
                    assert_eq!(inner.len(), 2);
                    assert_eq!(number_of(&inner[0]), 1.0);
                    assert_eq!(number_of(&inner[1]), 2.0);
                },
                _ => panic!("expected a nested array"),
            }
            match &vs[1] {
                Value::Array(inner) => {
                    assert_eq!(inner.len(), 1);
                    assert_eq!(number_of(&inner[0]), 3.0);
                },
                _ => panic!("expected a nested array"),
            }
        },
        _ => panic!("expected an array"),
    }
}

#[test]
fn unicode_escape_mid_string() {
    let (rest, v) = parse(b"\"a\\u00e9b\"").unwrap();
    assert_eq!(rest.len(), 0);
    match v {
        Value::Str(t) => assert_eq!(t.as_slice(), "a\u{e9}b".as_bytes()),
        _ => panic!("expected a string"),
    }
}

#[test]
fn plain_string_is_borrowed_escaped_is_owned() {
    let input: Vec<u8> = b"\"plain\"".to_vec();
    let (_, v) = parse(&input).unwrap();
    match v {
        Value::Str(t) => {
            assert_eq!(t.as_slice(), b"plain");
            assert!(matches!(t, Text::Borrowed(_)));
        },
        _ => panic!("expected a string"),
    }
    let (_, v) = parse(b"\"esc\\tape\"").unwrap();
    match v {
        Value::Str(t) => {
            assert_eq!(t.as_slice(), b"esc\tape");
            assert!(matches!(t, Text::Owned(_)));
        },
        _ => panic!("expected a string"),
    }
}

#[test]
fn numbers_convert_per_ieee_754() {
    // the recognized literal converts through standard double parsing, so
    // "-0" comes out as IEEE-754 negative zero
    let (rest, v) = parse(b"-0").unwrap();
    assert_eq!(rest.len(), 0);
    let n = number_of(&v);
    assert_eq!(n, 0.0);
    assert!(n.is_sign_negative());
    let (rest, v) = parse(b"1e10").unwrap();
    assert_eq!(rest.len(), 0);
    assert_eq!(number_of(&v), 1.0e10);
}

#[test]
fn trailing_comma_rejected() {
    assert!(parse(b"[1,]").is_err());
    assert!(parse(b"{\"a\":1,}").is_err());
}

#[test]
fn duplicate_key_last_write_wins() {
    let (rest, v) = parse(b"{\"a\":1,\"a\":2}").unwrap();
    assert_eq!(rest.len(), 0);
    match v {
        Value::Object(ps) => {
            assert_eq!(ps.len(), 1);
            assert_eq!(ps[0].0.as_slice(), b"a");
            assert_eq!(number_of(&ps[0].1), 2.0);
        },
        _ => panic!("expected an object"),
    }
}

#[test]
fn unterminated_string_diagnostic() {
    let e = parse(b"\"unterminated").unwrap_err();
    assert_eq!(e.kind, ErrorKind::UnterminatedString);
}

#[test]
fn redecoding_decoded_output_reproduces_it() {
    // decode once, re-encode the decoded fragment by hand, decode again:
    // the same characters come back
    let (_, v) = parse(b"\"a\\\\b\\u0009c\"").unwrap();
    let first = match v {
        Value::Str(t) => t.as_slice().to_vec(),
        _ => panic!("expected a string"),
    };
    assert_eq!(first, b"a\\b\tc");
    let mut reencoded: Vec<u8> = vec![b'"'];
    for &b in &first {
        match b {
            b'"' => reencoded.extend_from_slice(b"\\\""),
            b'\\' => reencoded.extend_from_slice(b"\\\\"),
            b'\t' => reencoded.extend_from_slice(b"\\t"),
            _ => reencoded.push(b),
        }
    }
    reencoded.push(b'"');
    let (_, v) = parse(&reencoded).unwrap();
    match v {
        Value::Str(t) => assert_eq!(t.as_slice(), first.as_slice()),
        _ => panic!("expected a string"),
    }
}

#[test]
fn object_with_whitespace_and_mixed_values() {
    let (rest, v) = parse(b"{ \"k\" : [ true , null ] , \"n\" : 2.5 }").unwrap();
    assert_eq!(rest.len(), 0);
    match v {
        Value::Object(ps) => {
            assert_eq!(ps.len(), 2);
            assert_eq!(ps[0].0.as_slice(), b"k");
            match &ps[0].1 {
                Value::Array(vs) => {
                    assert_eq!(vs.len(), 2);
                    assert!(matches!(vs[0], Value::Bool(true)));
                    assert!(matches!(vs[1], Value::Null));
                },
                _ => panic!("expected an array"),
            }
            assert_eq!(ps[1].0.as_slice(), b"n");
            assert_eq!(number_of(&ps[1].1), 2.5);
        },
        _ => panic!("expected an object"),
    }
}

#[test]
fn leftover_input_is_handed_back() {
    let (rest, v) = parse(b"truex").unwrap();
    assert!(matches!(v, Value::Bool(true)));
    assert_eq!(rest, b"x");
    // an exponent mark without digits is left unconsumed by longest match
    let (rest, v) = parse(b"1e").unwrap();
    assert_eq!(number_of(&v), 1.0);
    assert_eq!(rest, b"e");
}

#[test]
fn quote_escape_decodes_to_quote() {
    let (_, v) = parse(b"\"a\\\"b\"").unwrap();
    match v {
        Value::Str(t) => assert_eq!(t.as_slice(), b"a\"b"),
        _ => panic!("expected a string"),
    }
}

#[test]
fn error_expected_literal() {
    let e = parse_null(b"nul", 0).unwrap_err();
    assert_eq!(e.kind, ErrorKind::ExpectedLiteral);
    assert_eq!(e.pos, 0);
    let e = parse_bool(b"truce", 0).unwrap_err();
    assert_eq!(e.kind, ErrorKind::ExpectedLiteral);
}

#[test]
fn error_expected_digit() {
    let e = parse_number(b"-a", 0).unwrap_err();
    assert_eq!(e.kind, ErrorKind::ExpectedDigit);
    assert_eq!(e.pos, 1);
}

#[test]
fn error_expected_quote() {
    let e = parse_str(b"x", 0).unwrap_err();
    assert_eq!(e.kind, ErrorKind::ExpectedQuote);
}

#[test]
fn error_invalid_escape() {
    let e = parse(b"\"a\\qb\"").unwrap_err();
    assert_eq!(e.kind, ErrorKind::InvalidEscape);
    // an unpaired surrogate is not a scalar value of its own
    let e = parse(b"\"\\ud800\"").unwrap_err();
    assert_eq!(e.kind, ErrorKind::InvalidEscape);
    // too few hex digits
    let e = parse(b"\"\\u00g1\"").unwrap_err();
    assert_eq!(e.kind, ErrorKind::InvalidEscape);
}

#[test]
fn error_expected_colon() {
    let e = parse(b"{\"a\" 1}").unwrap_err();
    assert_eq!(e.kind, ErrorKind::ExpectedColon);
}

#[test]
fn error_expected_comma_or_close() {
    let e = parse(b"[1 2]").unwrap_err();
    assert_eq!(e.kind, ErrorKind::ExpectedCommaOrClose);
}

#[test]
fn error_expected_value() {
    let e = parse(b"@").unwrap_err();
    assert_eq!(e.kind, ErrorKind::ExpectedValue);
    assert!(parse(b"").is_err());
}

#[test]
fn number_grammar_edges() {
    // fraction needs a digit after the dot: "1." leaves ". " unconsumed
    let (rest, v) = parse(b"1.").unwrap();
    assert_eq!(number_of(&v), 1.0);
    assert_eq!(rest, b".");
    // full form with fraction, exponent sign
    let (rest, v) = parse(b"-12.5e-2").unwrap();
    assert_eq!(rest.len(), 0);
    assert_eq!(number_of(&v), -0.125);
    let (rest, v) = parse(b"3E+2").unwrap();
    assert_eq!(rest.len(), 0);
    assert_eq!(number_of(&v), 300.0);
}

#[test]
fn bare_string_as_value() {
    let (rest, v) = parse(b"\"top\"").unwrap();
    assert_eq!(rest.len(), 0);
    match v {
        Value::Str(t) => assert_eq!(t.as_slice(), b"top"),
        _ => panic!("expected a string"),
    }
}

#[test]
fn unterminated_array_fails() {
    assert!(parse(b"[1, 2").is_err());
    assert!(parse(b"{\"a\":1").is_err());
}

#[test]
fn error_merge_keeps_most_specific() {
    let a = json_parse::ParseError { kind: ErrorKind::ExpectedQuote, pos: 3 };
    let b = json_parse::ParseError { kind: ErrorKind::InvalidEscape, pos: 7 };
    assert_eq!(a.or(b), b);
    assert_eq!(b.or(a), b);
    // on a tie the later branch wins
    let c = json_parse::ParseError { kind: ErrorKind::ExpectedValue, pos: 7 };
    assert_eq!(b.or(c), c);
}

#[test]
fn deeply_nested_mixed_document() {
    let (rest, v) = parse(b"{\"a\":[{\"b\":[[null,{\"c\":false}]]}]}").unwrap();
    assert_eq!(rest.len(), 0);
    let inner = match v {
        Value::Object(ps) => match ps.into_iter().next().unwrap() {
            (k, Value::Array(vs)) => {
                assert_eq!(k.as_slice(), b"a");
                vs
            },
            _ => panic!("expected an array under the first key"),
        },
        _ => panic!("expected an object"),
    };
    assert_eq!(inner.len(), 1);
    match &inner[0] {
        Value::Object(ps) => {
            assert_eq!(ps[0].0.as_slice(), b"b");
            match &ps[0].1 {
                Value::Array(outer) => match &outer[0] {
                    Value::Array(pair) => {
                        assert!(matches!(pair[0], Value::Null));
                        match &pair[1] {
                            Value::Object(o) => {
                                assert_eq!(o[0].0.as_slice(), b"c");
                                assert!(matches!(o[0].1, Value::Bool(false)));
                            },
                            _ => panic!("expected the innermost object"),
                        }
                    },
                    _ => panic!("expected the inner pair array"),
                },
                _ => panic!("expected the outer array"),
            }
        },
        _ => panic!("expected the nested object"),
    }
}

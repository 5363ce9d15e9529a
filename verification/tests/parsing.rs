use mocha::handle_mocha_error;
use mocha::{Mocha, MochaError, Value};

#[test]
fn two_int_fields_in_order() {
    let doc = Mocha::parse("{a: 1, b: 2}").unwrap();
    assert_eq!(doc.len, 2);
    let f0 = doc.get(0).unwrap();
    assert_eq!(f0.name, b"a");
    assert!(matches!(f0.value, Value::Int(1)));
    let f1 = doc.get(1).unwrap();
    assert_eq!(f1.name, b"b");
    assert!(matches!(f1.value, Value::Int(2)));
    assert!(doc.get(2).is_none());
    assert!(doc.get(usize::MAX).is_none());
}

#[test]
fn duplicate_field_rejected() {
    let r = Mocha::parse("{a: 1, a: 2}");
    assert!(matches!(r, Err(MochaError::DuplicateField)));
}

#[test]
fn duplicate_only_within_one_object() {
    let doc = Mocha::parse("{a: 1, o: {a: 2}}").unwrap();
    assert_eq!(doc.len, 2);
    let f1 = doc.get(1).unwrap();
    match f1.value {
        Value::Object(o) => {
            assert_eq!(o.len, 1);
            let inner = o.get(0).unwrap();
            assert_eq!(inner.name, b"a");
            assert!(matches!(inner.value, Value::Int(2)));
        }
        _ => panic!("expected an object"),
    }
}

#[test]
fn array_of_ints() {
    let doc = Mocha::parse("{a: [1, 2, 3]}").unwrap();
    let f0 = doc.get(0).unwrap();
    match f0.value {
        Value::Array(arr) => {
            assert_eq!(arr.len, 3);
            assert!(matches!(arr.get(0), Some(Value::Int(1))));
            assert!(matches!(arr.get(1), Some(Value::Int(2))));
            assert!(matches!(arr.get(2), Some(Value::Int(3))));
            assert!(arr.get(3).is_none());
            assert!(arr.get(5).is_none());
        }
        _ => panic!("expected an array"),
    }
}

#[test]
fn integer_overflow_rejected() {
    let r = Mocha::parse("{n: 99999999999999999999}");
    assert!(matches!(r, Err(MochaError::Overflow)));
    let r = Mocha::parse("{n: 9223372036854775808}");
    assert!(matches!(r, Err(MochaError::Overflow)));
    let r = Mocha::parse("{n: -9223372036854775809}");
    assert!(matches!(r, Err(MochaError::Overflow)));
}

#[test]
fn integer_bounds_accepted() {
    let doc = Mocha::parse("{hi: 9223372036854775807, lo: -9223372036854775808}").unwrap();
    assert!(matches!(doc.get(0).unwrap().value, Value::Int(i64::MAX)));
    assert!(matches!(doc.get(1).unwrap().value, Value::Int(i64::MIN)));
}

#[test]
fn unterminated_container_is_end_of_stream() {
    assert!(matches!(Mocha::parse("{"), Err(MochaError::EndOfStream)));
    assert!(matches!(Mocha::parse("{a: 1"), Err(MochaError::EndOfStream)));
    assert!(matches!(Mocha::parse("{a: [1, 2"), Err(MochaError::EndOfStream)));
    assert!(matches!(Mocha::parse(""), Err(MochaError::EndOfStream)));
}

#[test]
fn scalars_and_keywords() {
    let doc = Mocha::parse("{x: nil, y: true, z: false}").unwrap();
    assert!(matches!(doc.get(0).unwrap().value, Value::Nil));
    assert!(matches!(doc.get(1).unwrap().value, Value::Bool(true)));
    assert!(matches!(doc.get(2).unwrap().value, Value::Bool(false)));
}

#[test]
fn strings_with_escapes() {
    let doc = Mocha::parse("{s: \"hi\", t: \"a\\n\\t\\\\\\\"b\"}").unwrap();
    match doc.get(0).unwrap().value {
        Value::String(s) => assert_eq!(s, b"hi"),
        _ => panic!("expected a string"),
    }
    match doc.get(1).unwrap().value {
        Value::String(s) => assert_eq!(s, b"a\n\t\\\"b"),
        _ => panic!("expected a string"),
    }
}

#[test]
fn decimal_literals_keep_their_text() {
    let doc = Mocha::parse("{f: 3.25, g: 1e9, h: -2.5e-3}").unwrap();
    match doc.get(0).unwrap().value {
        Value::Float(s) => assert_eq!(s, b"3.25"),
        _ => panic!("expected a decimal literal"),
    }
    match doc.get(1).unwrap().value {
        Value::Float(s) => assert_eq!(s, b"1e9"),
        _ => panic!("expected a decimal literal"),
    }
    match doc.get(2).unwrap().value {
        Value::Float(s) => assert_eq!(s, b"-2.5e-3"),
        _ => panic!("expected a decimal literal"),
    }
}

#[test]
fn whitespace_separates_fields() {
    let doc = Mocha::parse("{a: 1 b: 2\n c: 3}").unwrap();
    assert_eq!(doc.len, 3);
    assert_eq!(doc.get(2).unwrap().name, b"c");
}

#[test]
fn trailing_comma_allowed() {
    let doc = Mocha::parse("{a: 1,}").unwrap();
    assert_eq!(doc.len, 1);
    let doc = Mocha::parse("{a: [1, 2,],}").unwrap();
    match doc.get(0).unwrap().value {
        Value::Array(arr) => assert_eq!(arr.len, 2),
        _ => panic!("expected an array"),
    }
}

#[test]
fn misplaced_tokens_rejected() {
    assert!(matches!(Mocha::parse("{,}"), Err(MochaError::UnexpectedToken)));
    assert!(matches!(Mocha::parse("{a: 1,, b: 2}"), Err(MochaError::UnexpectedToken)));
    assert!(matches!(Mocha::parse("{a 1}"), Err(MochaError::UnexpectedToken)));
    assert!(matches!(Mocha::parse("{a: 1} x"), Err(MochaError::UnexpectedToken)));
    assert!(matches!(Mocha::parse("nil"), Err(MochaError::UnexpectedToken)));
    assert!(matches!(Mocha::parse("[1]"), Err(MochaError::UnexpectedToken)));
    assert!(matches!(Mocha::parse("   "), Err(MochaError::EndOfStream)));
}

#[test]
fn bad_characters_rejected() {
    assert!(matches!(Mocha::parse("{a: %}"), Err(MochaError::UnexpectedCharacter)));
    assert!(matches!(Mocha::parse_bytes(b"{a: \x01}"), Err(MochaError::InvalidCharacter)));
    // a non-ASCII (multi-byte) key byte is outside the allowed classes
    assert!(matches!(Mocha::parse_bytes(b"{\xc3\xa9: 1}"), Err(MochaError::InvalidCharacter)));
}

#[test]
fn empty_object_and_array() {
    let doc = Mocha::parse("{}").unwrap();
    assert_eq!(doc.len, 0);
    let doc = Mocha::parse("  {\t\n}  ").unwrap();
    assert_eq!(doc.len, 0);
    assert!(doc.get(0).is_none());
    let doc = Mocha::parse("{a: []}").unwrap();
    match doc.get(0).unwrap().value {
        Value::Array(arr) => {
            assert_eq!(arr.len, 0);
            assert!(arr.get(0).is_none());
        }
        _ => panic!("expected an array"),
    }
}

#[test]
fn nesting_depth_is_bounded() {
    let mut src = String::new();
    for _ in 0..200 {
        src.push_str("{a:");
    }
    src.push_str("nil");
    for _ in 0..200 {
        src.push('}');
    }
    assert!(matches!(Mocha::parse(&src), Err(MochaError::Overflow)));
}

#[test]
fn moderate_nesting_accepted() {
    let mut src = String::new();
    for _ in 0..50 {
        src.push_str("{a:");
    }
    src.push_str("nil");
    for _ in 0..50 {
        src.push('}');
    }
    assert!(Mocha::parse(&src).is_ok());
}

#[test]
fn views_live_only_while_the_root_does() {
    // the borrow checker pins every view to the root's lifetime: all reads
    // happen while the document is alive, then the root is dropped once
    let doc = Mocha::parse("{a: \"payload\"}").unwrap();
    let copied: Vec<u8> = match doc.get(0).unwrap().value {
        Value::String(s) => s.to_vec(),
        _ => panic!("expected a string"),
    };
    drop(doc);
    assert_eq!(copied, b"payload");
}

#[test]
fn negative_integers() {
    let doc = Mocha::parse("{a: -5, b: -0}").unwrap();
    assert!(matches!(doc.get(0).unwrap().value, Value::Int(-5)));
    assert!(matches!(doc.get(1).unwrap().value, Value::Int(0)));
}

#[test]
fn keywords_cannot_name_fields() {
    assert!(matches!(Mocha::parse("{nil: 1}"), Err(MochaError::UnexpectedToken)));
    assert!(matches!(Mocha::parse("{true: 1}"), Err(MochaError::UnexpectedToken)));
}

#[test]
fn nested_object_bounds() {
    let doc = Mocha::parse("{o: {p: 1, q: 2}}").unwrap();
    match doc.get(0).unwrap().value {
        Value::Object(o) => {
            assert_eq!(o.len, 2);
            assert!(o.get(2).is_none());
            assert_eq!(o.get(1).unwrap().name, b"q");
        }
        _ => panic!("expected an object"),
    }
}

#[test]
fn mixed_document() {
    let doc = Mocha::parse(
        "{name: \"svc\", port: 8080, opts: {retry: true, backoff: 1.5}, tags: [\"a\", \"b\"], fallback: nil}",
    )
    .unwrap();
    assert_eq!(doc.len, 5);
    assert_eq!(doc.get(0).unwrap().name, b"name");
    assert!(matches!(doc.get(1).unwrap().value, Value::Int(8080)));
    match doc.get(3).unwrap().value {
        Value::Array(arr) => {
            assert_eq!(arr.len, 2);
            match arr.get(1).unwrap() {
                Value::String(s) => assert_eq!(s, b"b"),
                _ => panic!("expected a string"),
            }
        }
        _ => panic!("expected an array"),
    }
    assert!(matches!(doc.get(4).unwrap().value, Value::Nil));
}

#[test]
fn error_code_mapping() {
    assert!(handle_mocha_error(0).is_none());
    assert!(matches!(handle_mocha_error(1), Some(MochaError::MissingField)));
    assert!(matches!(handle_mocha_error(2), Some(MochaError::DuplicateField)));
    assert!(matches!(handle_mocha_error(3), Some(MochaError::RootReference)));
    assert!(matches!(handle_mocha_error(4), Some(MochaError::OutOfMemory)));
    assert!(matches!(handle_mocha_error(5), Some(MochaError::InvalidCharacter)));
    assert!(matches!(handle_mocha_error(6), Some(MochaError::Overflow)));
    assert!(matches!(handle_mocha_error(7), Some(MochaError::EndOfStream)));
    assert!(matches!(handle_mocha_error(8), Some(MochaError::UnexpectedToken)));
    assert!(matches!(handle_mocha_error(9), Some(MochaError::UnexpectedCharacter)));
    assert!(handle_mocha_error(10).is_none());
}

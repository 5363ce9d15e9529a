use mocha::{Mocha, MochaError, Reference, Value};

#[test]
fn two_aliases_chain_both_ways() {
    let doc = Mocha::parse("{t: 1, x: @t, y: @t}").unwrap();
    // start from the first occurrence
    let r1 = match doc.get(1).unwrap().value {
        Value::Ref(r) => r,
        _ => panic!("expected a reference"),
    };
    assert_eq!(r1.name, b"x");
    assert_eq!(r1.index, 1);
    let r2 = r1.next().expect("the other occurrence");
    assert_eq!(r2.name, b"y");
    assert_eq!(r2.index, 2);
    assert!(r2.next().is_none());
    // start from the second occurrence: same chain, other order
    let s1 = match doc.get(2).unwrap().value {
        Value::Ref(r) => r,
        _ => panic!("expected a reference"),
    };
    assert_eq!(s1.name, b"y");
    let s2 = s1.next().expect("the other occurrence");
    assert_eq!(s2.name, b"x");
    assert_eq!(s2.index, 1);
    assert!(s2.next().is_none());
}

#[test]
fn single_alias_chain_is_exhausted_at_once() {
    let doc = Mocha::parse("{t: 1, x: @t}").unwrap();
    let r = match doc.get(1).unwrap().value {
        Value::Ref(r) => r,
        _ => panic!("expected a reference"),
    };
    assert!(r.next().is_none());
}

#[test]
fn three_aliases_visit_each_other_once() {
    let doc = Mocha::parse("{t: nil, a: @t, b: @t, c: @t}").unwrap();
    let start = match doc.get(2).unwrap().value {
        Value::Ref(r) => r,
        _ => panic!("expected a reference"),
    };
    assert_eq!(start.name, b"b");
    let mut seen: Vec<Vec<u8>> = Vec::new();
    let mut cur: Reference = start;
    loop {
        match cur.next() {
            Some(n) => {
                seen.push(n.name.to_vec());
                cur = n;
            }
            None => break,
        }
    }
    // wraps in source order: after b come c, then a, then exhaustion
    assert_eq!(seen.len(), 2);
    assert_eq!(seen[0], b"c");
    assert_eq!(seen[1], b"a");
}

#[test]
fn aliases_in_array_slots() {
    let doc = Mocha::parse("{t: 5, l: [@t, @t]}").unwrap();
    let arr = match doc.get(1).unwrap().value {
        Value::Array(a) => a,
        _ => panic!("expected an array"),
    };
    let r0 = match arr.get(0).unwrap() {
        Value::Ref(r) => r,
        _ => panic!("expected a reference"),
    };
    assert_eq!(r0.name, b"");
    assert_eq!(r0.index, 0);
    let r1 = r0.next().expect("the other occurrence");
    assert_eq!(r1.index, 1);
    assert!(r1.next().is_none());
}

#[test]
fn forward_reference_resolves() {
    let doc = Mocha::parse("{x: @later, later: 7}").unwrap();
    let r = match doc.get(0).unwrap().value {
        Value::Ref(r) => r,
        _ => panic!("expected a reference"),
    };
    assert_eq!(r.name, b"x");
    assert!(r.next().is_none());
}

#[test]
fn self_reference_is_legal() {
    let doc = Mocha::parse("{a: @a}").unwrap();
    let r = match doc.get(0).unwrap().value {
        Value::Ref(r) => r,
        _ => panic!("expected a reference"),
    };
    assert!(r.next().is_none());
}

#[test]
fn reference_from_nested_object() {
    let doc = Mocha::parse("{t: 1, o: {r: @t}}").unwrap();
    let obj = match doc.get(1).unwrap().value {
        Value::Object(o) => o,
        _ => panic!("expected an object"),
    };
    let r = match obj.get(0).unwrap().value {
        Value::Ref(r) => r,
        _ => panic!("expected a reference"),
    };
    assert_eq!(r.name, b"r");
    assert_eq!(r.index, 0);
}

#[test]
fn root_reference_rejected() {
    assert!(matches!(Mocha::parse("{a: @}"), Err(MochaError::RootReference)));
    assert!(matches!(Mocha::parse("{a: @, b: 1}"), Err(MochaError::RootReference)));
}

#[test]
fn dangling_reference_rejected() {
    assert!(matches!(Mocha::parse("{a: @nope}"), Err(MochaError::MissingField)));
    // a name that only exists nested is not a top-level target
    assert!(matches!(Mocha::parse("{o: {t: 1}, r: @t}"), Err(MochaError::MissingField)));
}

#[test]
fn truncated_reference_is_end_of_stream() {
    assert!(matches!(Mocha::parse("{a: @"), Err(MochaError::EndOfStream)));
}

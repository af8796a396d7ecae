use muon::{indentation, scalar_key_eq, Error, Int, Parser, Value};

/// Deep value equality for test comparisons: containers are walked,
/// scalar leaves are compared by the library's own key equality.
fn deep_eq(a: &Value, b: &Value) -> bool {
    match (a, b) {
        (Value::Record(x), Value::Record(y)) => {
            x.len() == y.len()
                && x.iter().zip(y.iter()).all(|(p, q)| p.0 == q.0 && deep_eq(&p.1, &q.1))
        }
        (Value::Dictionary(x), Value::Dictionary(y)) => {
            x.len() == y.len()
                && x.iter()
                    .zip(y.iter())
                    .all(|(p, q)| deep_eq(&p.0, &q.0) && deep_eq(&p.1, &q.1))
        }
        (Value::List(x), Value::List(y)) => {
            x.len() == y.len() && x.iter().zip(y.iter()).all(|(p, q)| deep_eq(p, q))
        }
        (Value::Any(x), Value::Any(y)) => deep_eq(x, y),
        (Value::Optional(None), Value::Optional(None)) => true,
        (Value::Optional(Some(x)), Value::Optional(Some(y))) => deep_eq(x, y),
        (Value::Record(_), _)
        | (Value::Dictionary(_), _)
        | (Value::List(_), _)
        | (Value::Any(_), _)
        | (Value::Optional(_), _) => false,
        (_, Value::Record(_))
        | (_, Value::Dictionary(_))
        | (_, Value::List(_))
        | (_, Value::Any(_))
        | (_, Value::Optional(_)) => false,
        _ => scalar_key_eq(a, b),
    }
}

fn collect(doc: &str) -> Vec<Result<(String, Value), Error>> {
    let mut p = Parser::new(doc).ok().expect("parser");
    let mut out = Vec::new();
    while let Some(item) = p.next() {
        let stop = item.is_err();
        out.push(item);
        if stop {
            break;
        }
    }
    out
}

#[test]
fn indentation_two_three_four() {
    assert_eq!(indentation("a:\n  b: 1\n"), Some(2));
    assert_eq!(indentation("a:\n   b: 1\n"), Some(3));
    assert_eq!(indentation("a:\n    b: 1\n"), Some(4));
}

#[test]
fn indentation_none_for_flat() {
    assert_eq!(indentation("a: 1\nb: 2\n"), None);
    assert_eq!(indentation(""), None);
}

#[test]
fn indentation_skips_malformed_candidate() {
    // Five leading spaces are no single unit: that line is skipped and
    // the next nested line decides.
    assert_eq!(indentation("a:\n     b: 1\nc:\n  d: 2\n"), Some(2));
    assert_eq!(indentation("a:\n     b: 1\n"), None);
}

#[test]
fn indentation_window_is_bounded() {
    let mut doc = String::new();
    for i in 0..1030 {
        doc.push_str(&format!("k{}: 1\n", i));
    }
    doc.push_str("last:\n  nested: 1\n");
    assert_eq!(indentation(&doc), None);

    let mut doc2 = String::new();
    for i in 0..1000 {
        doc2.push_str(&format!("k{}: 1\n", i));
    }
    doc2.push_str("last:\n  nested: 1\n");
    assert_eq!(indentation(&doc2), Some(2));
}

#[test]
fn flat_document_scalars() {
    let items = collect("a: 1\nb: true\nc: hello\n");
    assert_eq!(items.len(), 3);
    let (n0, v0) = items[0].as_ref().ok().expect("a");
    assert_eq!(n0, "a");
    assert!(matches!(v0, Value::Int(Int::ByteS(1))));
    let (n1, v1) = items[1].as_ref().ok().expect("b");
    assert_eq!(n1, "b");
    assert!(matches!(v1, Value::Bool(true)));
    let (n2, v2) = items[2].as_ref().ok().expect("c");
    assert_eq!(n2, "c");
    assert!(matches!(v2, Value::Text(t) if t == "hello"));
}

#[test]
fn record_order_preserved() {
    // Fields a, c, b stay in source order, never re-sorted.
    let items = collect("top:\n  a: 1\n  c: 2\n  b: 3\n");
    assert_eq!(items.len(), 1);
    let (name, v) = items[0].as_ref().ok().expect("top");
    assert_eq!(name, "top");
    match v {
        Value::Record(fields) => {
            let names: Vec<&str> = fields.iter().map(|p| p.0.as_str()).collect();
            assert_eq!(names, ["a", "c", "b"]);
        }
        _ => panic!("expected a record"),
    }
}

#[test]
fn end_to_end_record_with_list() {
    // One top-level pair holding a record with one field whose value is
    // a list of three integers in source order.
    let items = collect("cfg:\n  nums:\n    - 1\n    - 2\n    - 3\n");
    assert_eq!(items.len(), 1);
    let (name, v) = items[0].as_ref().ok().expect("cfg");
    assert_eq!(name, "cfg");
    match v {
        Value::Record(fields) => {
            assert_eq!(fields.len(), 1);
            assert_eq!(fields[0].0, "nums");
            match &fields[0].1 {
                Value::List(xs) => {
                    assert_eq!(xs.len(), 3);
                    assert!(matches!(xs[0], Value::Int(Int::ByteS(1))));
                    assert!(matches!(xs[1], Value::Int(Int::ByteS(2))));
                    assert!(matches!(xs[2], Value::Int(Int::ByteS(3))));
                }
                _ => panic!("expected a list"),
            }
        }
        _ => panic!("expected a record"),
    }
}

#[test]
fn mixed_indentation_fails() {
    // Sibling nested blocks under 2- and 3-space indentation: the
    // 3-space block is an indentation inconsistency, not a wrong depth.
    let items = collect("a:\n  b: 1\nc:\n   d: 2\n");
    assert_eq!(items.len(), 2);
    assert!(items[0].is_ok());
    assert!(matches!(items[1], Err(Error::Indentation)));
}

#[test]
fn parser_is_poisoned_after_error() {
    let mut p = Parser::new("a:\n  b: 1\nc:\n   d: 2\ne: 5\n").ok().expect("parser");
    assert!(p.next().expect("first").is_ok());
    assert!(p.next().expect("second").is_err());
    assert!(p.next().is_none());
    assert!(p.next().is_none());
}

#[test]
fn determinism_same_document_twice() {
    let doc = "top:\n  a: 1\n  b:\n    - x\n    - 2.5\nother: 2020-01-15\n";
    let one = collect(doc);
    let two = collect(doc);
    assert_eq!(one.len(), two.len());
    for (x, y) in one.iter().zip(two.iter()) {
        let (nx, vx) = x.as_ref().ok().expect("ok");
        let (ny, vy) = y.as_ref().ok().expect("ok");
        assert_eq!(nx, ny);
        assert!(deep_eq(vx, vy));
    }
}

#[test]
fn optional_absent_value() {
    let items = collect("maybe:\n");
    assert_eq!(items.len(), 1);
    let (name, v) = items[0].as_ref().ok().expect("maybe");
    assert_eq!(name, "maybe");
    assert!(matches!(v, Value::Optional(None)));
}

#[test]
fn bare_key_record() {
    let items = collect("server\n  host: local\n  port: 80\n");
    assert_eq!(items.len(), 1);
    let (name, v) = items[0].as_ref().ok().expect("server");
    assert_eq!(name, "server");
    match v {
        Value::Record(fields) => {
            assert_eq!(fields.len(), 2);
            assert_eq!(fields[0].0, "host");
            assert_eq!(fields[1].0, "port");
        }
        _ => panic!("expected a record"),
    }
}

#[test]
fn bare_key_without_block_is_depth_error() {
    let items = collect("orphan\n");
    assert_eq!(items.len(), 1);
    assert!(matches!(items[0], Err(Error::Depth)));
}

#[test]
fn nested_under_inline_value_is_depth_error() {
    let items = collect("a: 1\n  b: 2\n");
    assert_eq!(items.len(), 1);
    assert!(matches!(items[0], Err(Error::Depth)));
}

#[test]
fn top_level_list_item_is_syntax_error() {
    let items = collect("- 1\n");
    assert_eq!(items.len(), 1);
    assert!(matches!(items[0], Err(Error::Syntax)));
}

#[test]
fn colon_without_space_is_syntax_error() {
    let items = collect("key:value\n");
    assert_eq!(items.len(), 1);
    assert!(matches!(items[0], Err(Error::Syntax)));
}

#[test]
fn empty_key_is_syntax_error() {
    let items = collect(": 1\n");
    assert_eq!(items.len(), 1);
    assert!(matches!(items[0], Err(Error::Syntax)));
}

#[test]
fn bad_escape_is_scalar_error() {
    let items = collect("k: a\\qb\n");
    assert_eq!(items.len(), 1);
    assert!(matches!(items[0], Err(Error::Scalar)));
}

#[test]
fn duplicate_record_names_fail() {
    let items = collect("r:\n  a: 1\n  a: 2\n");
    assert_eq!(items.len(), 1);
    assert!(matches!(items[0], Err(Error::Syntax)));
}

#[test]
fn dictionary_with_value_keys() {
    let items = collect("d:\n  1: one\n  2: two\n");
    assert_eq!(items.len(), 1);
    let (name, v) = items[0].as_ref().ok().expect("d");
    assert_eq!(name, "d");
    match v {
        Value::Dictionary(pairs) => {
            assert_eq!(pairs.len(), 2);
            assert!(matches!(pairs[0].0, Value::Int(Int::ByteS(1))));
            assert!(matches!(pairs[1].0, Value::Int(Int::ByteS(2))));
            assert!(matches!(&pairs[0].1, Value::Text(t) if t == "one"));
        }
        _ => panic!("expected a dictionary"),
    }
}

#[test]
fn duplicate_dictionary_keys_by_value_fail() {
    // "1" and "01" decode to the same integer: equal by value.
    let items = collect("d:\n  1: a\n  01: b\n");
    assert_eq!(items.len(), 1);
    assert!(matches!(items[0], Err(Error::Syntax)));
}

#[test]
fn comments_and_blanks_are_skipped() {
    let items = collect("# heading\n\na: 1\n  # indented comment\nb: 2\n");
    assert_eq!(items.len(), 2);
    assert!(items[0].is_ok());
    assert!(items[1].is_ok());
}

#[test]
fn escaped_colon_in_key() {
    let items = collect("a\\:b: 1\n");
    assert_eq!(items.len(), 1);
    let (name, _v) = items[0].as_ref().ok().expect("pair");
    assert_eq!(name, "a:b");
}

#[test]
fn nested_records_two_levels() {
    let items = collect("a:\n  b:\n    c: 7\n");
    assert_eq!(items.len(), 1);
    let (_, v) = items[0].as_ref().ok().expect("a");
    match v {
        Value::Record(fs) => match &fs[0].1 {
            Value::Record(inner) => {
                assert_eq!(inner[0].0, "c");
                assert!(matches!(inner[0].1, Value::Int(Int::ByteS(7))));
            }
            _ => panic!("expected inner record"),
        },
        _ => panic!("expected record"),
    }
}

#[test]
fn parser_new_always_succeeds() {
    assert!(Parser::new("").is_ok());
    assert!(Parser::new("anything at all").is_ok());
    let mut p = Parser::new("").ok().expect("parser");
    assert!(p.next().is_none());
}

#[test]
fn list_of_nested_records() {
    let items = collect("m:\n  -\n    x: 1\n  -\n    x: 2\n");
    assert_eq!(items.len(), 1);
    let (_, v) = items[0].as_ref().ok().expect("m");
    match v {
        Value::List(xs) => {
            assert_eq!(xs.len(), 2);
            match &xs[0] {
                Value::Record(fs) => {
                    assert_eq!(fs[0].0, "x");
                    assert!(matches!(fs[0].1, Value::Int(Int::ByteS(1))));
                }
                _ => panic!("expected record element"),
            }
            assert!(matches!(&xs[1], Value::Record(_)));
        }
        _ => panic!("expected a list"),
    }
}

#[test]
fn list_stops_at_incompatible_kind() {
    // The pair after the list items is a stray nested block for the
    // resumed parent, a depth mismatch.
    let items = collect("k:\n  - 1\n  x: 2\n");
    assert_eq!(items.len(), 2);
    assert!(items[0].is_ok());
    assert!(matches!(items[1], Err(Error::Depth)));
}

#[test]
fn dictionary_with_date_keys() {
    let items = collect("d:\n  2020-01-15: a\n  2020-01-16: b\n");
    assert_eq!(items.len(), 1);
    let (_, v) = items[0].as_ref().ok().expect("d");
    match v {
        Value::Dictionary(pairs) => {
            assert_eq!(pairs.len(), 2);
            match &pairs[0].0 {
                Value::Date(d) => assert_eq!(d.to_text(), "2020-01-15"),
                _ => panic!("expected date key"),
            }
        }
        _ => panic!("expected a dictionary"),
    }
}

#[test]
fn time_fraction_and_offset_in_document() {
    let items = collect("at: 08:30:00.125+05:30\n");
    let (_, v) = items[0].as_ref().ok().expect("at");
    match v {
        Value::Time(t) => {
            assert_eq!(t.hour(), 8);
            assert_eq!(t.minute(), 30);
            assert_eq!(t.second(), 0);
            assert_eq!(t.to_text(), "08:30:00.125+05:30");
        }
        _ => panic!("expected a time"),
    }
}

#[test]
fn deeper_jump_is_depth_error() {
    let items = collect("a:\n    b: 1\n");
    // Width defaults from the first nested line: four spaces, depth one.
    assert_eq!(items.len(), 1);
    assert!(items[0].is_ok());
    let items2 = collect("a:\n  b: 1\nc:\n  d:\n      e: 1\n");
    assert_eq!(items2.len(), 2);
    assert!(items2[0].is_ok());
    assert!(matches!(items2[1], Err(Error::Depth)));
}

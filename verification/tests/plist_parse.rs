use glyphspack::plist::{Root, Value, parse};
use std::borrow::Cow;


fn parse_string_value(code: &str) -> String {
    let slice = parse(Root::Dict, code).unwrap();
    match slice.value {
        Value::Dict(pairs) => match &pairs[0].1.value {
            Value::String(s) => s.to_string(),
            _ => panic!("expected string value"),
        },
        _ => panic!("expected dict"),
    }
}

#[test]
fn parse_empty_dict() {
    let slice = parse(Root::Dict, "{}").unwrap();
    match slice.value {
        Value::Dict(pairs) => assert!(pairs.is_empty()),
        _ => panic!("expected dict"),
    }
}

#[test]
fn parse_dict_with_entry() {
    let slice = parse(Root::Dict, "{key = value;}").unwrap();
    match slice.value {
        Value::Dict(pairs) => {
            assert_eq!(pairs.len(), 1);
            assert_eq!(pairs[0].0.as_ref(), "key");
        }
        _ => panic!("expected dict"),
    }
}

#[test]
fn parse_nested_dict() {
    let slice = parse(Root::Dict, "{outer = {inner = val;};}").unwrap();
    match slice.value {
        Value::Dict(pairs) => {
            assert_eq!(pairs[0].0.as_ref(), "outer");
            match &pairs[0].1.value {
                Value::Dict(inner) => assert_eq!(inner[0].0.as_ref(), "inner"),
                _ => panic!("expected inner dict"),
            }
        }
        _ => panic!("expected dict"),
    }
}

#[test]
fn parse_empty_array() {
    let slice = parse(Root::Array, "()").unwrap();
    match slice.value {
        Value::Array(items) => assert!(items.is_empty()),
        _ => panic!("expected array"),
    }
}

#[test]
fn parse_array_with_items() {
    let slice = parse(Root::Array, "(a, b, c)").unwrap();
    match slice.value {
        Value::Array(items) => assert_eq!(items.len(), 3),
        _ => panic!("expected array"),
    }
}

#[test]
fn parse_array_trailing_comma() {
    let slice = parse(Root::Array, "(a, b,)").unwrap();
    match slice.value {
        Value::Array(items) => assert_eq!(items.len(), 2),
        _ => panic!("expected array"),
    }
}

#[test]
fn parse_unquoted_string() {
    let val = parse_string_value("{k = hello;}");
    assert_eq!(val, "hello");
}

#[test]
fn parse_quoted_string() {
    let val = parse_string_value(r#"{k = "hello world";}"#);
    assert_eq!(val, "hello world");
}

#[test]
fn parse_escape_newline() {
    let val = parse_string_value(r#"{k = "line1\nline2";}"#);
    assert_eq!(val, "line1\nline2");
}

#[test]
fn parse_escape_tab() {
    let val = parse_string_value(r#"{k = "col1\tcol2";}"#);
    assert_eq!(val, "col1\tcol2");
}

#[test]
fn parse_escape_backslash() {
    let val = parse_string_value(r#"{k = "a\\b";}"#);
    assert_eq!(val, "a\\b");
}

#[test]
fn parse_escape_quote() {
    let val = parse_string_value(r#"{k = "say \"hello\"";}"#);
    assert_eq!(val, "say \"hello\"");
}

#[test]
fn parse_no_escape_borrows() {
    let code = r#"{k = "no escapes here";}"#;
    let slice = parse(Root::Dict, code).unwrap();
    match slice.value {
        Value::Dict(pairs) => match &pairs[0].1.value {
            Value::String(s) => assert!(matches!(s, Cow::Borrowed(_))),
            _ => panic!("expected string"),
        },
        _ => panic!("expected dict"),
    }
}

#[test]
fn parse_with_escape_owns() {
    let code = r#"{k = "has\nnewline";}"#;
    let slice = parse(Root::Dict, code).unwrap();
    match slice.value {
        Value::Dict(pairs) => match &pairs[0].1.value {
            Value::String(s) => assert!(matches!(s, Cow::Owned(_))),
            _ => panic!("expected string"),
        },
        _ => panic!("expected dict"),
    }
}

#[test]
fn parse_comment() {
    let code = "{\n// this is a comment\nk = v;\n}";
    let slice = parse(Root::Dict, code).unwrap();
    match slice.value {
        Value::Dict(pairs) => assert_eq!(pairs.len(), 1),
        _ => panic!("expected dict"),
    }
}

#[test]
fn parse_unquoted_with_dots() {
    let val = parse_string_value("{k = a.b.c;}");
    assert_eq!(val, "a.b.c");
}

#[test]
fn parse_unquoted_with_hyphens() {
    let val = parse_string_value("{k = some-value;}");
    assert_eq!(val, "some-value");
}

#[test]
fn parse_invalid_dict() {
    assert!(parse(Root::Dict, "not a dict").is_err());
}


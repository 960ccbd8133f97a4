use std::borrow::Cow;
use glyphspack::plist::{Root, Value, array_file_text, dict_file_text, parse};

fn string_value(code: &str) -> String {
    let slice = parse(Root::Array, code).unwrap();
    match slice.value {
        Value::Array(items) => match &items[0].value {
            Value::String(s) => s.to_string(),
            _ => panic!("expected string"),
        },
        _ => panic!("expected array"),
    }
}

#[test]
fn parse_octal_escape() {
    assert_eq!(string_value(r#"("a\012b")"#), "a\nb");
    assert_eq!(string_value(r#"("\0")"#), "\u{0}");
}

#[test]
fn parse_other_escapes() {
    assert_eq!(string_value(r#"("\/\r\b\f\q")"#), "/\r\u{8}\u{c}\\q");
}

#[test]
fn parse_block_comment() {
    let slice = parse(Root::Dict, "{/* c */ k /* d */ = /**/ v; // e\n}").unwrap();
    match slice.value {
        Value::Dict(pairs) => {
            assert_eq!(pairs.len(), 1);
            assert_eq!(pairs[0].2, "k /* d */ = /**/ v;");
        }
        _ => panic!("expected dict"),
    }
}

#[test]
fn parse_codes_are_source_text() {
    let code = "{ a = (1, \"x y\",) ; b = {c = d;} ; }";
    let slice = parse(Root::Dict, code).unwrap();
    assert_eq!(slice.code, "a = (1, \"x y\",) ; b = {c = d;} ;");
    match slice.value {
        Value::Dict(pairs) => {
            assert_eq!(pairs[0].1.code, "1, \"x y\"");
            assert_eq!(pairs[0].2, "a = (1, \"x y\",) ;");
            assert_eq!(pairs[1].1.code, "c = d;");
            match &pairs[0].1.value {
                Value::Array(items) => {
                    assert_eq!(items.len(), 2);
                    assert_eq!(items[1].code, "\"x y\"");
                }
                _ => panic!("expected array"),
            }
        }
        _ => panic!("expected dict"),
    }
}

#[test]
fn parse_non_ascii_text() {
    let code = "{k = \"héllo wörld\"; m = n;}";
    let slice = parse(Root::Dict, code).unwrap();
    match slice.value {
        Value::Dict(pairs) => {
            assert_eq!(pairs[0].2, "k = \"héllo wörld\";");
            assert_eq!(pairs[1].2, "m = n;");
        }
        _ => panic!("expected dict"),
    }
}

#[test]
fn parse_errors() {
    assert!(parse(Root::Dict, " {}").is_err());
    assert!(parse(Root::Array, "{}").is_err());
    assert!(parse(Root::Dict, "{a = ;}").is_err());
    assert!(parse(Root::Dict, "{a = b c;}").is_err());
    assert!(parse(Root::Array, "(a,,b)").is_err());
    assert!(parse(Root::Dict, "{a = \"b;}").is_err());
    assert!(parse(Root::Array, "(a b)").is_err());
}

#[test]
fn parse_ignores_text_after_root() {
    assert!(parse(Root::Dict, "{}\n").is_ok());
    assert!(parse(Root::Array, "() trailing").is_ok());
}

#[test]
fn file_texts_of_nothing() {
    assert_eq!(dict_file_text(&[]), "{\n}\n");
    assert_eq!(array_file_text(&[]), "(\n)");
    assert_eq!(array_file_text(&["x"]), "(\nx\n)");
}

#[test]
fn keys_borrow_unless_escaped() {
    let slice = parse(Root::Dict, "{\"a\\nb\" = c; \"d\" = e; f = \"g\\\\h\";}").unwrap();
    match slice.value {
        Value::Dict(pairs) => {
            assert!(matches!(pairs[0].0, Cow::Owned(_)));
            assert_eq!(pairs[0].0, "a\nb");
            assert!(matches!(pairs[1].0, Cow::Borrowed(_)));
            assert!(matches!(pairs[2].0, Cow::Borrowed(_)));
            match &pairs[2].1.value {
                Value::String(s) => {
                    assert!(matches!(s, Cow::Owned(_)));
                    assert_eq!(s.as_ref(), "g\\h");
                }
                _ => panic!("expected string"),
            }
        }
        _ => panic!("expected dict"),
    }
}

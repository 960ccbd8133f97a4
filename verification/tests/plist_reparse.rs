use glyphspack::plist::{Root, Value, array_file_text, dict_file_text, parse};

fn keys_and_value_codes(code: &str) -> Vec<(String, String)> {
    let slice = parse(Root::Dict, code).unwrap();
    match slice.value {
        Value::Dict(pairs) => pairs
            .iter()
            .map(|(k, v, _)| (k.to_string(), v.code.to_string()))
            .collect(),
        _ => panic!("expected dict"),
    }
}

#[test]
fn entry_codes_parse_alone_to_their_entries() {
    let code = "{ a = (1, 2) ; \"b c\" = \"x\"; d = {e = f;}; }";
    let slice = parse(Root::Dict, code).unwrap();
    match slice.value {
        Value::Dict(pairs) => {
            for (key, value, entry_code) in &pairs {
                let alone = dict_file_text(&[*entry_code]);
                assert_eq!(
                    keys_and_value_codes(&alone),
                    vec![(key.to_string(), value.code.to_string())]
                );
            }
        }
        _ => panic!("expected dict"),
    }
}

#[test]
fn entry_codes_written_as_dict_file_parse_back() {
    let text = dict_file_text(&["a = 1;", "b = (x, y);", "c = {d = e;};"]);
    assert_eq!(
        keys_and_value_codes(&text),
        vec![
            ("a".to_string(), "1".to_string()),
            ("b".to_string(), "x, y".to_string()),
            ("c".to_string(), "d = e;".to_string())
        ]
    );
}

#[test]
fn names_written_as_array_file_parse_back() {
    let text = array_file_text(&["a", "b.c", "A_1"]);
    let slice = parse(Root::Array, &text).unwrap();
    match slice.value {
        Value::Array(items) => {
            let names: Vec<String> = items
                .iter()
                .map(|item| match &item.value {
                    Value::String(s) => s.to_string(),
                    _ => panic!("expected string"),
                })
                .collect();
            assert_eq!(names, vec!["a", "b.c", "A_1"]);
        }
        _ => panic!("expected array"),
    }
}

#[test]
fn dict_code_written_as_dict_file_parses_back() {
    let slice = parse(Root::Dict, "{x = {a = 1; /* c */ b = 2;};}").unwrap();
    let inner = match slice.value {
        Value::Dict(pairs) => pairs[0].1.code,
        _ => panic!("expected dict"),
    };
    assert_eq!(inner, "a = 1; /* c */ b = 2;");
    let text = dict_file_text(&[inner]);
    assert_eq!(text, "{\na = 1; /* c */ b = 2;\n}\n");
    assert_eq!(
        keys_and_value_codes(&text),
        vec![("a".to_string(), "1".to_string()), ("b".to_string(), "2".to_string())]
    );
}

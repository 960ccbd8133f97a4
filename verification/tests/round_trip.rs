use glyphspack::pack::{glyph_filename, pack_files};
use glyphspack::plist::{Root, Value, dict_file_text, parse};
use glyphspack::unpack::{order_names, unpack_files};

const STANDALONE: &str = "{\n.appVersion = \"3000\";\nDisplayStrings = (\n\"/a /b\",\nA\n);\nfamilyName = Test;\nglyphs = (\n{\nglyphname = a;\nunicode = 0061;\n},\n{\nglyphname = A;\nlayers = (\n{\nwidth = 600;\n}\n);\n}\n);\nunitsPerEm = 1000;\n}\n";

fn sorted_keys(code: &str) -> Vec<String> {
    let slice = parse(Root::Dict, code).unwrap();
    match slice.value {
        Value::Dict(pairs) => {
            let mut keys: Vec<String> = pairs.iter().map(|(k, _, _)| k.to_string()).collect();
            keys.sort();
            keys
        }
        _ => panic!("expected dict"),
    }
}

fn glyph_count(code: &str) -> usize {
    let slice = parse(Root::Dict, code).unwrap();
    match slice.value {
        Value::Dict(pairs) => {
            for (key, value, _) in &pairs {
                if key.as_ref() == "glyphs" {
                    if let Value::Array(items) = &value.value {
                        return items.len();
                    }
                }
            }
            0
        }
        _ => 0,
    }
}

fn value_codes(code: &str) -> Vec<(String, String)> {
    let slice = parse(Root::Dict, code).unwrap();
    match slice.value {
        Value::Dict(pairs) => {
            let mut out: Vec<(String, String)> = pairs
                .iter()
                .filter(|(k, _, _)| k.as_ref() != "glyphs")
                .map(|(k, v, _)| (k.to_string(), v.code.to_string()))
                .collect();
            out.sort();
            out
        }
        _ => panic!("expected dict"),
    }
}

fn glyph_codes(code: &str) -> Vec<String> {
    let slice = parse(Root::Dict, code).unwrap();
    match slice.value {
        Value::Dict(pairs) => {
            for (key, value, _) in &pairs {
                if key.as_ref() == "glyphs" {
                    if let Value::Array(items) = &value.value {
                        return items.iter().map(|g| g.code.to_string()).collect();
                    }
                }
            }
            vec![]
        }
        _ => vec![],
    }
}

fn unpack_package(code: &str, reverse_glyph_files: bool) -> String {
    let package = pack_files(code).unwrap();
    let mut files: Vec<String> = package.glyphs.iter().map(|(_, t)| t.clone()).collect();
    if reverse_glyph_files {
        files.reverse();
    }
    unpack_files(&package.fontinfo, &package.order, &files, package.ui_state.as_deref()).unwrap()
}

#[test]
fn pack_then_unpack_keeps_keys() {
    let joined = unpack_package(STANDALONE, true);
    assert_eq!(sorted_keys(STANDALONE), sorted_keys(&joined));
}

#[test]
fn pack_then_unpack_keeps_glyph_count() {
    let joined = unpack_package(STANDALONE, false);
    assert_eq!(glyph_count(STANDALONE), glyph_count(&joined));
    assert!(glyph_count(STANDALONE) > 0);
}

#[test]
fn pack_then_unpack_keeps_values() {
    let joined = unpack_package(STANDALONE, true);
    assert_eq!(value_codes(STANDALONE), value_codes(&joined));
    assert_eq!(glyph_codes(STANDALONE), glyph_codes(&joined));
}

#[test]
fn pack_then_unpack_gives_a_standalone_file() {
    let joined = unpack_package(STANDALONE, false);
    assert!(parse(Root::Dict, &joined).is_ok());
}

#[test]
fn unpack_then_pack_names_glyph_files_after_order() {
    let fontinfo = dict_file_text(&["familyName = Test;"]);
    let order = "(\nA,\n.notdef,\nb\n)";
    let glyph_files = vec![
        "{\nglyphname = b;\n}\n".to_string(),
        "{\nglyphname = .notdef;\n}\n".to_string(),
        "{\nglyphname = A;\nunicode = 0041;\n}\n".to_string(),
    ];
    let ui_state = "{\ndisplayStrings = (\n\"/A\"\n);\n}\n";
    let joined = unpack_files(&fontinfo, order, &glyph_files, Some(ui_state)).unwrap();
    let package = pack_files(&joined).unwrap();
    let names: Vec<String> = order_names(order)
        .unwrap()
        .iter()
        .map(|n| glyph_filename(n))
        .collect();
    let file_names: Vec<String> = package.glyphs.iter().map(|(n, _)| n.clone()).collect();
    assert_eq!(file_names, names);
    assert_eq!(file_names, vec!["A_.glyph", "_notdef.glyph", "b.glyph"]);
    assert_eq!(package.order, order);
    assert_eq!(package.ui_state.as_deref(), Some(ui_state));
    assert_eq!(package.fontinfo, fontinfo);
}

#[test]
fn pack_then_unpack_keeps_keys_with_string_display_strings() {
    let standalone = "{\nDisplayStrings = \"/a\";\nfamilyName = \"My Font\";\nglyphs = (\n{\nglyphname = a;\n}\n);\nversionMajor = 1;\n}\n";
    let joined = unpack_package(standalone, false);
    assert_eq!(sorted_keys(standalone), sorted_keys(&joined));
    assert_eq!(glyph_codes(standalone), glyph_codes(&joined));
    assert!(joined.contains("\nfamilyName = \"My Font\";\n"));
    assert!(joined.contains("\nversionMajor = 1;\n"));
    assert!(joined.contains("\nDisplayStrings = (\n\"/a\"\n);\n"));
}

#[test]
fn unpack_then_pack_with_empty_glyphs_and_bare_display_strings() {
    let fontinfo = "{\nglyphs = ();\nfamilyName = T;\n}\n";
    let order = "(\na,\nB\n)";
    let glyph_files = vec![
        "{\nglyphname = B;\n}\n".to_string(),
        "{\nglyphname = a;\n}\n".to_string(),
    ];
    let ui_state = "{\ndisplayStrings = abc;\n}\n";
    let joined = unpack_files(fontinfo, order, &glyph_files, Some(ui_state)).unwrap();
    let package = pack_files(&joined).unwrap();
    let file_names: Vec<String> = package.glyphs.iter().map(|(n, _)| n.clone()).collect();
    assert_eq!(file_names, vec!["a.glyph", "B_.glyph"]);
    assert_eq!(package.order, order);
    assert_eq!(package.ui_state.as_deref(), Some("{\ndisplayStrings = (\nabc\n);\n}\n"));
}

use glyphspack::plist::{array_file_text, dict_file_text};

#[test]
fn write_dict_roundtrip() {
    let content = dict_file_text(&["key = value;"]);
    assert_eq!(content, "{\nkey = value;\n}\n");
}

#[test]
fn write_array_roundtrip() {
    let content = array_file_text(&["a", "b", "c"]);
    assert_eq!(content, "(\na,\nb,\nc\n)");
}

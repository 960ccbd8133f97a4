use glyphspack::unpack::{
    GlyphNameError, UnpackError, fontinfo_entries, glyph_file_records, glyph_name, glyphs_entry,
    order_names, standalone_text, ui_state_entries, unpack_files,
};

fn pair(a: &str, b: &str) -> (String, String) {
    (a.to_string(), b.to_string())
}

#[test]
fn fontinfo_entries_keep_codes() {
    let entries = fontinfo_entries("{\nfamilyName = Test;\nunitsPerEm = 1000;\n}\n").unwrap();
    assert_eq!(
        entries,
        vec![
            pair("familyName", "familyName = Test;"),
            pair("unitsPerEm", "unitsPerEm = 1000;")
        ]
    );
    assert_eq!(fontinfo_entries("(a)").err(), Some(UnpackError::FontInfoParse));
}

#[test]
fn order_names_are_strings() {
    assert_eq!(
        order_names("(\na,\n\"b c\",\nA\n)").unwrap(),
        vec!["a".to_string(), "b c".to_string(), "A".to_string()]
    );
    assert_eq!(order_names("{}").err(), Some(UnpackError::OrderParse));
    assert_eq!(order_names("(a, (b))").err(), Some(UnpackError::OrderNotString));
}

#[test]
fn glyph_name_is_first_glyphname() {
    assert_eq!(glyph_name("{\nglyphname = a;\nglyphname = b;\n}\n").unwrap(), "a");
    assert_eq!(glyph_name("{\nglyphname = \"a b\";\n}").unwrap(), "a b");
    assert_eq!(glyph_name("{glyphname = (a);}").err(), Some(GlyphNameError::NotString));
    assert_eq!(glyph_name("{unicode = 0041;}").err(), Some(GlyphNameError::Missing));
    assert_eq!(glyph_name("glyphname = a;").err(), Some(GlyphNameError::Parse));
}

#[test]
fn glyphs_entry_joins_trimmed_glyph_codes_in_order() {
    let order = vec!["b".to_string(), "a".to_string()];
    let records = vec![
        pair("a", "{\nglyphname = a;\n}\n"),
        pair("b", "  {\nglyphname = b;\n}\n\n"),
    ];
    assert_eq!(
        glyphs_entry(&order, &records).unwrap(),
        "glyphs = (\n{\nglyphname = b;\n},{\nglyphname = a;\n}\n);"
    );
}

#[test]
fn glyphs_entry_takes_last_record_of_a_name() {
    let order = vec!["a".to_string()];
    let records = vec![pair("a", "{x = 1;}"), pair("a", "{x = 2;}")];
    assert_eq!(glyphs_entry(&order, &records).unwrap(), "glyphs = (\n{x = 2;}\n);");
}

#[test]
fn glyphs_entry_reports_missing_glyph() {
    let order = vec!["a".to_string(), "b".to_string(), "c".to_string()];
    let records = vec![pair("a", "{}")];
    assert_eq!(glyphs_entry(&order, &records).err(), Some(UnpackError::MissingGlyph(1)));
}

#[test]
fn glyphs_entry_of_empty_order() {
    assert_eq!(glyphs_entry(&Vec::new(), &Vec::new()).unwrap(), "glyphs = (\n\n);");
}

#[test]
fn ui_state_renames_display_strings() {
    let entries = ui_state_entries("{\ndisplayStrings = (\n\"/a\"\n);\nother = 1;\n}\n").unwrap();
    assert_eq!(
        entries,
        vec![
            pair("DisplayStrings", "DisplayStrings = (\n\"/a\"\n);"),
            pair("other", "other = 1;")
        ]
    );
    assert_eq!(ui_state_entries("(").err(), Some(UnpackError::UiStateParse));
}

#[test]
fn standalone_text_sorts_by_key_stably() {
    let entries = vec![
        pair("b", "b = 1;"),
        pair("a", "a = 1;"),
        pair("B", "B = 1;"),
        pair("a", "a = 2;"),
        pair(".x", ".x = 1;"),
    ];
    assert_eq!(
        standalone_text(&entries),
        "{\n.x = 1;\nB = 1;\na = 1;\na = 2;\nb = 1;\n}\n"
    );
}

#[test]
fn standalone_text_of_nothing() {
    assert_eq!(standalone_text(&Vec::new()), "{\n}\n");
}

#[test]
fn glyph_file_records_name_each_file() {
    let files = vec!["{glyphname = b;}".to_string(), "{glyphname = a;}".to_string()];
    assert_eq!(
        glyph_file_records(&files).unwrap(),
        vec![pair("b", "{glyphname = b;}"), pair("a", "{glyphname = a;}")]
    );
    let bad = vec!["{glyphname = b;}".to_string(), "{x = 1;}".to_string()];
    assert_eq!(
        glyph_file_records(&bad).err(),
        Some(UnpackError::Glyph(1, GlyphNameError::Missing))
    );
}

#[test]
fn unpack_files_joins_a_package() {
    let glyphs = vec![
        "{\nglyphname = b;\n}\n".to_string(),
        "{\nglyphname = a;\n}\n".to_string(),
    ];
    let text = unpack_files(
        "{\nunitsPerEm = 1000;\nfamilyName = Test;\n}\n",
        "(\na,\nb\n)",
        &glyphs,
        Some("{\ndisplayStrings = (\n\"/a\"\n);\n}\n"),
    )
    .unwrap();
    assert_eq!(
        text,
        "{\nDisplayStrings = (\n\"/a\"\n);\nfamilyName = Test;\nglyphs = (\n{\nglyphname = a;\n},{\nglyphname = b;\n}\n);\nunitsPerEm = 1000;\n}\n"
    );
}

#[test]
fn unpack_files_without_ui_state() {
    let glyphs = vec!["{glyphname = a;}".to_string()];
    let text = unpack_files("{}", "(a)", &glyphs, None).unwrap();
    assert_eq!(text, "{\nglyphs = (\n{glyphname = a;}\n);\n}\n");
}

#[test]
fn unpack_files_errors() {
    let glyphs = vec!["{glyphname = a;}".to_string()];
    assert_eq!(unpack_files("(", "(a)", &glyphs, None).err(), Some(UnpackError::FontInfoParse));
    assert_eq!(unpack_files("{}", "{}", &glyphs, None).err(), Some(UnpackError::OrderParse));
    assert_eq!(
        unpack_files("{}", "(a, b)", &glyphs, None).err(),
        Some(UnpackError::MissingGlyph(1))
    );
    assert_eq!(
        unpack_files("{}", "(a)", &glyphs, Some("x")).err(),
        Some(UnpackError::UiStateParse)
    );
    let bad = vec!["(a)".to_string()];
    assert_eq!(
        unpack_files("{}", "(a)", &bad, None).err(),
        Some(UnpackError::Glyph(0, GlyphNameError::Parse))
    );
}

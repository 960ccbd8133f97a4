use glyphspack::pack::{PackError, pack_files};

const STANDALONE: &str = "{\n.appVersion = \"3000\";\nDisplayStrings = (\n\"/a /b\",\nA\n);\nfamilyName = Test;\nglyphs = (\n{\nglyphname = a;\nunicode = 0061;\n},\n{\nglyphname = A;\nlayers = ();\n}\n);\nunitsPerEm = 1000;\n}\n";

#[test]
fn pack_splits_standalone_file() {
    let package = pack_files(STANDALONE).unwrap();
    assert_eq!(
        package.fontinfo,
        "{\n.appVersion = \"3000\";\nfamilyName = Test;\nunitsPerEm = 1000;\n}\n"
    );
    assert_eq!(package.order, "(\na,\nA\n)");
    assert_eq!(
        package.ui_state.as_deref(),
        Some("{\ndisplayStrings = (\n\"/a /b\",\nA\n);\n}\n")
    );
    assert_eq!(package.glyphs.len(), 2);
    assert_eq!(package.glyphs[0].0, "a.glyph");
    assert_eq!(package.glyphs[0].1, "{\nglyphname = a;\nunicode = 0061;\n}\n");
    assert_eq!(package.glyphs[1].0, "A_.glyph");
    assert_eq!(package.glyphs[1].1, "{\nglyphname = A;\nlayers = ();\n}\n");
}

#[test]
fn pack_without_display_strings_has_no_ui_state() {
    let package = pack_files("{\nglyphs = (\n);\n}").unwrap();
    assert!(package.ui_state.is_none());
    assert_eq!(package.order, "(\n)");
    assert_eq!(package.fontinfo, "{\n}\n");
    assert!(package.glyphs.is_empty());
}

#[test]
fn pack_uses_last_glyphname() {
    let package = pack_files("{glyphs = ({glyphname = a; glyphname = b;});}").unwrap();
    assert_eq!(package.order, "(\nb\n)");
    assert_eq!(package.glyphs[0].0, "b.glyph");
}

#[test]
fn pack_rejects_unparsable_file() {
    assert_eq!(pack_files("glyphs = ();").err(), Some(PackError::Parse));
    assert_eq!(pack_files("{a = b}").err(), Some(PackError::Parse));
}

#[test]
fn pack_rejects_non_array_glyphs() {
    assert_eq!(pack_files("{glyphs = a;}").err(), Some(PackError::GlyphsNotArray));
}

#[test]
fn pack_rejects_non_dict_glyph() {
    assert_eq!(pack_files("{glyphs = (a);}").err(), Some(PackError::GlyphNotDict));
}

#[test]
fn pack_rejects_non_string_glyphname() {
    assert_eq!(
        pack_files("{glyphs = ({glyphname = (a);});}").err(),
        Some(PackError::GlyphNameNotString)
    );
}

#[test]
fn pack_rejects_missing_glyphname() {
    assert_eq!(
        pack_files("{glyphs = ({unicode = 0041;});}").err(),
        Some(PackError::GlyphNameMissing)
    );
}

#[test]
fn pack_glyph_file_names_follow_glyph_names() {
    let package = pack_files("{glyphs = ({glyphname = \".notdef\";},{glyphname = con;});}").unwrap();
    assert_eq!(package.glyphs[0].0, "_notdef.glyph");
    assert_eq!(package.glyphs[1].0, "_con.glyph");
    assert_eq!(package.order, "(\n.notdef,\ncon\n)");
}

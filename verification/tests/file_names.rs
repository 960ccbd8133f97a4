use glyphspack::pack::glyph_filename;

const RESERVED: [&str; 22] = [
    "CON", "CLOCK$", "PRN", "AUX", "NUL", "COM1", "COM2", "COM3", "COM4", "COM5", "COM6", "COM7",
    "COM8", "COM9", "LPT1", "LPT2", "LPT3", "LPT4", "LPT5", "LPT6", "LPT7", "LPT8",
];

const NAMES: [&str; 9] = [".notdef", "con", "nul.alt", "a.lpt1", "Aux", ".con", "x..y", "clock$", "."];

#[test]
fn file_names_are_not_hidden() {
    for name in NAMES {
        assert!(!glyph_filename(name).starts_with('.'), "{name}");
    }
    assert_eq!(glyph_filename(""), ".glyph");
}

#[test]
fn file_name_parts_are_not_reserved() {
    for name in NAMES {
        let file_name = glyph_filename(name);
        let stem = file_name.strip_suffix(".glyph").unwrap();
        for part in stem.split('.') {
            assert!(
                !RESERVED.iter().any(|r| r.eq_ignore_ascii_case(part)),
                "{name} gives {file_name}"
            );
        }
    }
    assert_eq!(glyph_filename("nul.alt"), "_nul.alt.glyph");
    assert_eq!(glyph_filename("a.lpt1"), "a._lpt1.glyph");
    assert_eq!(glyph_filename(".con"), "_con.glyph");
    assert_eq!(glyph_filename("clock$"), "_clock$.glyph");
}

#[test]
fn names_differing_in_case_keep_apart_ignoring_case() {
    let groups = [["ae", "Ae", "aE", "AE"], ["con", "Con", "cON", "CON"], [".a_b", ".A_b", ".a_B", ".A_B"]];
    for group in groups {
        let mut lowered: Vec<String> = group.iter().map(|n| glyph_filename(n).to_ascii_lowercase()).collect();
        lowered.sort();
        lowered.dedup();
        assert_eq!(lowered.len(), group.len(), "{group:?}");
    }
}

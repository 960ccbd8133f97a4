use glyphspack::pack::glyph_filename;


#[test]
fn filename_lowercase() {
    assert_eq!(glyph_filename("a"), "a.glyph");
}

#[test]
fn filename_uppercase() {
    assert_eq!(glyph_filename("A"), "A_.glyph");
}

#[test]
fn filename_uppercase_pair() {
    assert_eq!(glyph_filename("AE"), "A_E_.glyph");
}

#[test]
fn filename_uppercase_then_lower() {
    assert_eq!(glyph_filename("Ae"), "A_e.glyph");
}

#[test]
fn filename_all_lower() {
    assert_eq!(glyph_filename("ae"), "ae.glyph");
}

#[test]
fn filename_lower_then_upper() {
    assert_eq!(glyph_filename("aE"), "aE_.glyph");
}

#[test]
fn filename_dotted_suffix_lower() {
    assert_eq!(glyph_filename("a.alt"), "a.alt.glyph");
}

#[test]
fn filename_dotted_suffix_upper_base() {
    assert_eq!(glyph_filename("A.alt"), "A_.alt.glyph");
}

#[test]
fn filename_dotted_suffix_upper_in_suffix() {
    assert_eq!(glyph_filename("A.Alt"), "A_.A_lt.glyph");
}

#[test]
fn filename_dotted_suffix_mixed() {
    assert_eq!(glyph_filename("A.aLt"), "A_.aL_t.glyph");
}

#[test]
fn filename_dotted_suffix_trailing_upper() {
    assert_eq!(glyph_filename("A.alT"), "A_.alT_.glyph");
}

#[test]
fn filename_underscore_both_upper() {
    assert_eq!(glyph_filename("T_H"), "T__H_.glyph");
}

#[test]
fn filename_underscore_upper_lower() {
    assert_eq!(glyph_filename("T_h"), "T__h.glyph");
}

#[test]
fn filename_underscore_both_lower() {
    assert_eq!(glyph_filename("t_h"), "t_h.glyph");
}

#[test]
fn filename_ligature_all_upper() {
    assert_eq!(glyph_filename("F_F_I"), "F__F__I_.glyph");
}

#[test]
fn filename_ligature_all_lower() {
    assert_eq!(glyph_filename("f_f_i"), "f_f_i.glyph");
}

#[test]
fn filename_complex_ligature_with_suffix() {
    assert_eq!(glyph_filename("Aacute_V.swash"), "A_acute_V_.swash.glyph");
}

#[test]
fn filename_initial_dot() {
    assert_eq!(glyph_filename(".notdef"), "_notdef.glyph");
}

// Reserved Windows filenames

#[test]
fn filename_reserved_con() {
    assert_eq!(glyph_filename("con"), "_con.glyph");
}

#[test]
fn filename_reserved_con_uppercase() {
    assert_eq!(glyph_filename("CON"), "C_O_N_.glyph");
}

#[test]
fn filename_reserved_con_dotted() {
    assert_eq!(glyph_filename("con.alt"), "_con.alt.glyph");
}

#[test]
fn filename_reserved_in_suffix() {
    assert_eq!(glyph_filename("alt.con"), "alt._con.glyph");
}

#[test]
fn filename_not_reserved() {
    assert_eq!(glyph_filename("convent"), "convent.glyph");
}

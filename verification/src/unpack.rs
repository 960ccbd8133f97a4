//! Joining the files of a package into a standalone Glyphs file.
use vstd::prelude::*;
use vstd::multiset::Multiset;
use vstd::string::StringSliceAdditionalSpecFns;
use vstd::utf8::encode_utf8;

use crate::grammar::{SpecEntry, SpecSlice, SpecValue};
use crate::pack::strings_view;
use crate::plist::{
    Root, Value, dict_file_text, dict_text, entries_view, joined, lemma_array_view,
    lemma_dict_view, parse, parse_root, slices_view, texts,
};
use crate::text::{chars_and_offsets, cow_str, push_char, push_str, str_eq, substring};
use crate::{KEY_DISPLAY_STRINGS_PACKAGE, KEY_DISPLAY_STRINGS_STANDALONE, KEY_GLYPHS, KEY_GLYPH_NAME};

verus! {

/// Why the files of a package cannot be joined into a standalone file.
#[derive(Debug, Clone, Copy, PartialEq, Eq, Structural)]
pub enum UnpackError {
    /// The font info is not a property-list dictionary.
    FontInfoParse,
    /// The order is not a property-list array.
    OrderParse,
    /// An entry of the order is not a string.
    OrderNotString,
    /// The glyph file at this position of the glyph files has no readable glyph name.
    Glyph(usize, GlyphNameError),
    /// The glyph at this position of the order has no glyph file.
    MissingGlyph(usize),
    /// The UI state is not a property-list dictionary.
    UiStateParse,
}

/// Why a glyph file gives no glyph name.
#[derive(Debug, Clone, Copy, PartialEq, Eq, Structural)]
pub enum GlyphNameError {
    /// The file is not a property-list dictionary.
    Parse,
    /// Its `glyphname` is not a string.
    NotString,
    /// It has no `glyphname`.
    Missing,
}

/// The glyph name and text of each glyph file, in order; the first file without a glyph
/// name is an error.
pub open spec fn glyph_records(files: Seq<Seq<char>>) -> Result<Seq<(Seq<char>, Seq<char>)>, UnpackError>
    decreases files.len(),
{
    if files.len() == 0 {
        Ok(seq![])
    } else {
        match glyph_records(files.drop_last()) {
            Err(e) => Err(e),
            Ok(r) => match spec_glyph_name(files.last()) {
                Ok(n) => Ok(r.push((n, files.last()))),
                Err(e) => Err(UnpackError::Glyph((files.len() - 1) as usize, e)),
            },
        }
    }
}

/// The standalone file that a package's files join into: the font info, the order, the
/// glyph files (in any order) and, when there is one, the UI state.
pub open spec fn spec_unpack(
    fontinfo: Seq<char>,
    order: Seq<char>,
    glyph_files: Seq<Seq<char>>,
    ui_state: Option<Seq<char>>,
) -> Result<Seq<char>, UnpackError> {
    match spec_fontinfo_entries(fontinfo) {
        Err(e) => Err(e),
        Ok(fi) => match spec_order_names(order) {
            Err(e) => Err(e),
            Ok(names) => match glyph_records(glyph_files) {
                Err(e) => Err(e),
                Ok(records) => match spec_glyphs_entry(names, records) {
                    Err(e) => Err(e),
                    Ok(g) => match ui_state {
                        None => Ok(spec_standalone_text(fi.push((KEY_GLYPHS@, g)))),
                        Some(u) => match spec_ui_state_entries(u) {
                            Err(e) => Err(e),
                            Ok(ue) => Ok(spec_standalone_text(fi.push((KEY_GLYPHS@, g)) + ue)),
                        },
                    },
                },
            },
        },
    }
}

/// Key and code of each entry.
pub open spec fn keyed_codes(es: Seq<SpecEntry>) -> Seq<(Seq<char>, Seq<char>)> {
    es.map_values(|e: SpecEntry| (e.key, e.code))
}

/// The entries of a package's font info, each as its key and its code.
pub open spec fn spec_fontinfo_entries(s: Seq<char>) -> Result<Seq<(Seq<char>, Seq<char>)>, UnpackError> {
    match parse_root(Root::Dict, s) {
        Some(slice) => match slice.value {
            SpecValue::Dict(es) => Ok(keyed_codes(es)),
            _ => Err(UnpackError::FontInfoParse),
        },
        None => Err(UnpackError::FontInfoParse),
    }
}

/// The text of a string value (empty for other values).
pub open spec fn string_of(v: SpecSlice) -> Seq<char> {
    match v.value {
        SpecValue::String(t) => t,
        _ => seq![],
    }
}

/// The texts of string values; every value must be a string.
pub open spec fn names_of(vs: Seq<SpecSlice>) -> Result<Seq<Seq<char>>, UnpackError> {
    if forall|k: int| 0 <= k < vs.len() ==> (#[trigger] vs[k]).value is String {
        Ok(vs.map_values(|v: SpecSlice| string_of(v)))
    } else {
        Err(UnpackError::OrderNotString)
    }
}

/// The glyph names of a package's order: every entry must be a string.
pub open spec fn spec_order_names(s: Seq<char>) -> Result<Seq<Seq<char>>, UnpackError> {
    match parse_root(Root::Array, s) {
        Some(slice) => match slice.value {
            SpecValue::Array(vs) => names_of(vs),
            _ => Err(UnpackError::OrderParse),
        },
        None => Err(UnpackError::OrderParse),
    }
}

/// The name of a glyph in a glyph file: the value of its first `glyphname` entry, which
/// must be a string.
pub open spec fn first_glyph_name(es: Seq<SpecEntry>) -> Result<Seq<char>, GlyphNameError>
    decreases es.len(),
{
    if es.len() == 0 {
        Err(GlyphNameError::Missing)
    } else if es[0].key == KEY_GLYPH_NAME@ {
        match es[0].value.value {
            SpecValue::String(n) => Ok(n),
            _ => Err(GlyphNameError::NotString),
        }
    } else {
        first_glyph_name(es.drop_first())
    }
}

/// The name of the glyph that a glyph file holds.
pub open spec fn spec_glyph_name(s: Seq<char>) -> Result<Seq<char>, GlyphNameError> {
    match parse_root(Root::Dict, s) {
        Some(slice) => match slice.value {
            SpecValue::Dict(es) => first_glyph_name(es),
            _ => Err(GlyphNameError::Parse),
        },
        None => Err(GlyphNameError::Parse),
    }
}

/// Whether `c` is white space in the sense of Unicode (the `White_Space` property).
pub open spec fn is_white_space(c: char) -> bool {
    let v = c as u32;
    (0x09 <= v && v <= 0x0D) || v == 0x20 || v == 0x85 || v == 0xA0 || v == 0x1680 || (0x2000
        <= v && v <= 0x200A) || v == 0x2028 || v == 0x2029 || v == 0x202F || v == 0x205F || v
        == 0x3000
}

/// `t` without its leading white space.
pub open spec fn trim_start(t: Seq<char>) -> Seq<char>
    decreases t.len(),
{
    if t.len() > 0 && is_white_space(t[0]) {
        trim_start(t.drop_first())
    } else {
        t
    }
}

/// `t` without its trailing white space.
pub open spec fn trim_end(t: Seq<char>) -> Seq<char>
    decreases t.len(),
{
    if t.len() > 0 && is_white_space(t.last()) {
        trim_end(t.drop_last())
    } else {
        t
    }
}

/// `t` without leading and trailing white space.
pub open spec fn trim(t: Seq<char>) -> Seq<char> {
    trim_end(trim_start(t))
}

/// The code of the last glyph file whose glyph is named `name`.
pub open spec fn lookup(records: Seq<(Seq<char>, Seq<char>)>, name: Seq<char>) -> Option<Seq<char>>
    decreases records.len(),
{
    if records.len() == 0 {
        None
    } else if records.last().0 == name {
        Some(records.last().1)
    } else {
        lookup(records.drop_last(), name)
    }
}

/// The trimmed code of each glyph of the order, in order; the first glyph without a file
/// is an error.
pub open spec fn glyph_codes(order: Seq<Seq<char>>, records: Seq<(Seq<char>, Seq<char>)>) -> Result<
    Seq<Seq<char>>,
    UnpackError,
>
    decreases order.len(),
{
    if order.len() == 0 {
        Ok(seq![])
    } else {
        match glyph_codes(order.drop_last(), records) {
            Err(e) => Err(e),
            Ok(cs) => match lookup(records, order.last()) {
                Some(c) => Ok(cs.push(trim(c))),
                None => Err(UnpackError::MissingGlyph((order.len() - 1) as usize)),
            },
        }
    }
}

/// The `glyphs` entry of a standalone file, made from the glyph codes: an array of them,
/// separated by commas.
pub open spec fn glyphs_code(codes: Seq<Seq<char>>) -> Seq<char> {
    KEY_GLYPHS@ + " = (\n"@ + joined(codes, ","@) + "\n);"@
}

/// The `glyphs` entry of a standalone file, made from the order and from the name and
/// code of each glyph file.
pub open spec fn spec_glyphs_entry(
    order: Seq<Seq<char>>,
    records: Seq<(Seq<char>, Seq<char>)>,
) -> Result<Seq<char>, UnpackError> {
    match glyph_codes(order, records) {
        Ok(cs) => Ok(glyphs_code(cs)),
        Err(e) => Err(e),
    }
}

/// The key and code that an entry of a package's UI state has in a standalone file:
/// `displayStrings` becomes `DisplayStrings`; other entries stay as they are.
pub open spec fn ui_state_entry(e: SpecEntry) -> (Seq<char>, Seq<char>) {
    if e.key == KEY_DISPLAY_STRINGS_PACKAGE@ {
        (
            KEY_DISPLAY_STRINGS_STANDALONE@,
            KEY_DISPLAY_STRINGS_STANDALONE@ + " = (\n"@ + e.value.code + "\n);"@,
        )
    } else {
        (e.key, e.code)
    }
}

/// The entries of a package's UI state as they stand in a standalone file.
pub open spec fn spec_ui_state_entries(s: Seq<char>) -> Result<Seq<(Seq<char>, Seq<char>)>, UnpackError> {
    match parse_root(Root::Dict, s) {
        Some(slice) => match slice.value {
            SpecValue::Dict(es) => Ok(es.map_values(|e: SpecEntry| ui_state_entry(e))),
            _ => Err(UnpackError::UiStateParse),
        },
        None => Err(UnpackError::UiStateParse),
    }
}

/// Whether the byte string `x` comes no later than `y` in lexicographic order.
pub open spec fn bytes_le(x: Seq<u8>, y: Seq<u8>) -> bool
    decreases x.len(),
{
    if x.len() == 0 {
        true
    } else if y.len() == 0 {
        false
    } else if x[0] != y[0] {
        x[0] < y[0]
    } else {
        bytes_le(x.drop_first(), y.drop_first())
    }
}

/// The order of keys: that of their UTF-8 encodings, byte by byte.
pub open spec fn key_le(a: Seq<char>, b: Seq<char>) -> bool {
    bytes_le(encode_utf8(a), encode_utf8(b))
}

/// `e` put into `s` right after the last entry whose key is not greater than its own.
pub open spec fn insert_by_key(s: Seq<(Seq<char>, Seq<char>)>, e: (Seq<char>, Seq<char>)) -> Seq<
    (Seq<char>, Seq<char>),
>
    decreases s.len(),
{
    if s.len() == 0 {
        seq![e]
    } else if key_le(s.last().0, e.0) {
        s.push(e)
    } else {
        insert_by_key(s.drop_last(), e).push(s.last())
    }
}

/// The entries sorted by key; entries with equal keys keep their order.
pub open spec fn sort_by_key(s: Seq<(Seq<char>, Seq<char>)>) -> Seq<(Seq<char>, Seq<char>)>
    decreases s.len(),
{
    if s.len() == 0 {
        seq![]
    } else {
        insert_by_key(sort_by_key(s.drop_last()), s.last())
    }
}

/// The codes of keyed entries.
pub open spec fn codes_of(s: Seq<(Seq<char>, Seq<char>)>) -> Seq<Seq<char>> {
    s.map_values(|e: (Seq<char>, Seq<char>)| e.1)
}

/// The text of a standalone file with the given keyed entries: the codes, sorted by key.
pub open spec fn spec_standalone_text(entries: Seq<(Seq<char>, Seq<char>)>) -> Seq<char> {
    dict_text(codes_of(sort_by_key(entries)))
}

/// What a list of keyed codes holds.
pub open spec fn keyed_view(v: Seq<(String, String)>) -> Seq<(Seq<char>, Seq<char>)> {
    v.map_values(|e: (String, String)| (e.0@, e.1@))
}

/// The entries of a package's font info, each as its key and its code.
pub fn fontinfo_entries(code: &str) -> (r: Result<Vec<(String, String)>, UnpackError>)
    ensures
        match r {
            Ok(v) => spec_fontinfo_entries(code@) == Ok::<_, UnpackError>(keyed_view(v@)),
            Err(e) => spec_fontinfo_entries(code@) == Err::<Seq<(Seq<char>, Seq<char>)>, _>(e),
        },
{
    let slice = match parse(Root::Dict, code) {
        Ok(slice) => slice,
        Err(_) => {
            return Err(UnpackError::FontInfoParse);
        },
    };
    let entries = match &slice.value {
        Value::Dict(entries) => entries,
        _ => {
            return Err(UnpackError::FontInfoParse);
        },
    };
    proof {
        lemma_dict_view(*entries);
    }
    let ghost ev = entries_view(entries@);
    let mut out: Vec<(String, String)> = Vec::new();
    let mut i: usize = 0;
    while i < entries.len()
        invariant
            ev == entries_view(entries@),
            0 <= i <= entries@.len(),
            out@.len() == i,
            forall|k: int|
                0 <= k < i ==> (#[trigger] out@[k]).0@ == ev[k].key && out@[k].1@ == ev[k].code,
        decreases entries@.len() - i,
    {
        let key = cow_str(&entries[i].0).to_owned();
        let code = entries[i].2.to_owned();
        out.push((key, code));
        i = i + 1;
    }
    proof {
        assert(keyed_view(out@) =~= keyed_codes(ev));
    }
    Ok(out)
}

/// The glyph names of a package's order.
pub fn order_names(code: &str) -> (r: Result<Vec<String>, UnpackError>)
    ensures
        match r {
            Ok(v) => spec_order_names(code@) == Ok::<_, UnpackError>(strings_view(v@)),
            Err(e) => spec_order_names(code@) == Err::<Seq<Seq<char>>, _>(e),
        },
{
    let slice = match parse(Root::Array, code) {
        Ok(slice) => slice,
        Err(_) => {
            return Err(UnpackError::OrderParse);
        },
    };
    let items = match &slice.value {
        Value::Array(items) => items,
        _ => {
            return Err(UnpackError::OrderParse);
        },
    };
    proof {
        lemma_array_view(*items);
    }
    let ghost vs = slices_view(items@);
    let mut out: Vec<String> = Vec::new();
    let mut i: usize = 0;
    while i < items.len()
        invariant
            vs == slices_view(items@),
            spec_order_names(code@) == names_of(vs),
            0 <= i <= items@.len(),
            out@.len() == i,
            forall|k: int| 0 <= k < i ==> (#[trigger] vs[k]).value is String,
            forall|k: int| 0 <= k < i ==> (#[trigger] out@[k])@ == string_of(vs[k]),
        decreases items@.len() - i,
    {
        match &items[i].value {
            Value::String(n) => {
                out.push(cow_str(n).to_owned());
            },
            _ => {
                proof {
                    assert(!(vs[i as int].value is String));
                }
                return Err(UnpackError::OrderNotString);
            },
        }
        i = i + 1;
    }
    proof {
        assert(strings_view(out@) =~= vs.map_values(|v: SpecSlice| string_of(v)));
    }
    Ok(out)
}

/// The name of the glyph that the glyph file `code` holds.
pub fn glyph_name(code: &str) -> (r: Result<String, GlyphNameError>)
    ensures
        match r {
            Ok(n) => spec_glyph_name(code@) == Ok::<_, GlyphNameError>(n@),
            Err(e) => spec_glyph_name(code@) == Err::<Seq<char>, _>(e),
        },
{
    let slice = match parse(Root::Dict, code) {
        Ok(slice) => slice,
        Err(_) => {
            return Err(GlyphNameError::Parse);
        },
    };
    let entries = match &slice.value {
        Value::Dict(entries) => entries,
        _ => {
            return Err(GlyphNameError::Parse);
        },
    };
    proof {
        lemma_dict_view(*entries);
    }
    let ghost ev = entries_view(entries@);
    let mut i: usize = 0;
    proof {
        assert(ev.skip(0) =~= ev);
    }
    while i < entries.len()
        invariant
            ev == entries_view(entries@),
            spec_glyph_name(code@) == first_glyph_name(ev),
            0 <= i <= entries@.len(),
            first_glyph_name(ev) == first_glyph_name(ev.skip(i as int)),
        decreases entries@.len() - i,
    {
        proof {
            assert(ev.skip(i as int)[0] == ev[i as int]);
            assert(ev.skip(i as int).drop_first() =~= ev.skip(i + 1));
        }
        if str_eq(cow_str(&entries[i].0), KEY_GLYPH_NAME) {
            match &entries[i].1.value {
                Value::String(n) => {
                    return Ok(cow_str(n).to_owned());
                },
                _ => {
                    return Err(GlyphNameError::NotString);
                },
            }
        }
        i = i + 1;
    }
    Err(GlyphNameError::Missing)
}

/// The entries of a package's UI state as they stand in a standalone file, each as its key
/// and its code.
pub fn ui_state_entries(code: &str) -> (r: Result<Vec<(String, String)>, UnpackError>)
    ensures
        match r {
            Ok(v) => spec_ui_state_entries(code@) == Ok::<_, UnpackError>(keyed_view(v@)),
            Err(e) => spec_ui_state_entries(code@) == Err::<Seq<(Seq<char>, Seq<char>)>, _>(e),
        },
{
    let slice = match parse(Root::Dict, code) {
        Ok(slice) => slice,
        Err(_) => {
            return Err(UnpackError::UiStateParse);
        },
    };
    let entries = match &slice.value {
        Value::Dict(entries) => entries,
        _ => {
            return Err(UnpackError::UiStateParse);
        },
    };
    proof {
        lemma_dict_view(*entries);
    }
    let ghost ev = entries_view(entries@);
    let mut out: Vec<(String, String)> = Vec::new();
    let mut i: usize = 0;
    while i < entries.len()
        invariant
            ev == entries_view(entries@),
            0 <= i <= entries@.len(),
            out@.len() == i,
            forall|k: int|
                0 <= k < i ==> ((#[trigger] out@[k]).0@, out@[k].1@) == ui_state_entry(ev[k]),
        decreases entries@.len() - i,
    {
        let key = cow_str(&entries[i].0);
        if str_eq(key, KEY_DISPLAY_STRINGS_PACKAGE) {
            let mut t = String::new();
            push_str(&mut t, KEY_DISPLAY_STRINGS_STANDALONE);
            push_str(&mut t, " = (\n");
            push_str(&mut t, entries[i].1.code);
            push_str(&mut t, "\n);");
            out.push((KEY_DISPLAY_STRINGS_STANDALONE.to_owned(), t));
        } else {
            out.push((key.to_owned(), entries[i].2.to_owned()));
        }
        i = i + 1;
    }
    proof {
        assert(keyed_view(out@) =~= ev.map_values(|e: SpecEntry| ui_state_entry(e)));
    }
    Ok(out)
}

/// Whether `c` is white space in the sense of Unicode.
fn is_white_space_char(c: char) -> (b: bool)
    ensures
        b == is_white_space(c),
{
    let v = c as u32;
    (0x09 <= v && v <= 0x0D) || v == 0x20 || v == 0x85 || v == 0xA0 || v == 0x1680 || (0x2000
        <= v && v <= 0x200A) || v == 0x2028 || v == 0x2029 || v == 0x202F || v == 0x205F || v
        == 0x3000
}

proof fn lemma_trim_start(t: Seq<char>, a: int)
    requires
        0 <= a <= t.len(),
        forall|k: int| 0 <= k < a ==> is_white_space(#[trigger] t[k]),
        a == t.len() || !is_white_space(t[a]),
    ensures
        trim_start(t) == t.skip(a),
    decreases a,
{
    if a > 0 {
        assert forall|k: int| 0 <= k < a - 1 implies is_white_space(#[trigger] t.drop_first()[k]) by {
            assert(t.drop_first()[k] == t[k + 1]);
        }
        lemma_trim_start(t.drop_first(), a - 1);
        assert(t.drop_first().skip(a - 1) =~= t.skip(a));
    } else {
        assert(t.skip(0) =~= t);
    }
}

proof fn lemma_trim_end(t: Seq<char>, b: int)
    requires
        0 <= b <= t.len(),
        forall|k: int| b <= k < t.len() ==> is_white_space(#[trigger] t[k]),
        b == 0 || !is_white_space(t[b - 1]),
    ensures
        trim_end(t) == t.take(b),
    decreases t.len() - b,
{
    if b < t.len() {
        assert forall|k: int| b <= k < t.len() - 1 implies is_white_space(#[trigger] t.drop_last()[k]) by {
            assert(t.drop_last()[k] == t[k]);
        }
        lemma_trim_end(t.drop_last(), b);
        assert(t.drop_last().take(b) =~= t.take(b));
    } else {
        assert(t.take(b) =~= t);
    }
}

/// `s` without leading and trailing white space.
fn trim_str<'a>(s: &'a str) -> (r: &'a str)
    ensures
        r@ == trim(s@),
{
    let (cs, offs) = chars_and_offsets(s);
    let n = cs.len();
    let mut a: usize = 0;
    while a < n && is_white_space_char(cs[a])
        invariant
            n == cs@.len(),
            cs@ == s@,
            0 <= a <= n,
            forall|k: int| 0 <= k < a ==> is_white_space(#[trigger] cs@[k]),
        decreases n - a,
    {
        a = a + 1;
    }
    let mut b: usize = n;
    while b > a && is_white_space_char(cs[b - 1])
        invariant
            n == cs@.len(),
            cs@ == s@,
            0 <= a <= b <= n,
            forall|k: int| b <= k < n ==> is_white_space(#[trigger] cs@[k]),
        decreases b - a,
    {
        b = b - 1;
    }
    proof {
        let t = s@;
        lemma_trim_start(t, a as int);
        let u = t.skip(a as int);
        assert forall|k: int| b - a <= k < u.len() implies is_white_space(#[trigger] u[k]) by {
            assert(u[k] == t[a + k]);
        }
        if b > a {
            assert(u[b - a - 1] == t[b - 1]);
        }
        lemma_trim_end(u, b - a);
        assert(u.take(b - a) =~= t.subrange(a as int, b as int));
    }
    substring(s, &offs, a, b)
}

proof fn lemma_glyph_codes_err(order: Seq<Seq<char>>, records: Seq<(Seq<char>, Seq<char>)>, j: int)
    requires
        0 <= j <= order.len(),
        glyph_codes(order.take(j), records) is Err,
    ensures
        glyph_codes(order, records) == glyph_codes(order.take(j), records),
    decreases order.len() - j,
{
    if j < order.len() {
        assert(order.take(j + 1).drop_last() =~= order.take(j));
        lemma_glyph_codes_err(order, records, j + 1);
    } else {
        assert(order.take(j) =~= order);
    }
}

/// The `glyphs` entry of a standalone file: the code of each glyph of `order`, trimmed,
/// taken from the last of `records` (glyph name and glyph file code) with that name.
pub fn glyphs_entry(order: &Vec<String>, records: &Vec<(String, String)>) -> (r: Result<String, UnpackError>)
    ensures
        match r {
            Ok(t) => spec_glyphs_entry(strings_view(order@), keyed_view(records@)) == Ok::<
                _,
                UnpackError,
            >(t@),
            Err(e) => spec_glyphs_entry(strings_view(order@), keyed_view(records@)) == Err::<
                Seq<char>,
                _,
            >(e),
        },
{
    let ghost ov = strings_view(order@);
    let ghost rv = keyed_view(records@);
    let mut out = String::new();
    push_str(&mut out, KEY_GLYPHS);
    push_str(&mut out, " = (\n");
    let ghost head = out@;
    let ghost mut cs: Seq<Seq<char>> = seq![];
    let mut i: usize = 0;
    proof {
        assert(ov.take(0) =~= Seq::<Seq<char>>::empty());
    }
    while i < order.len()
        invariant
            ov == strings_view(order@),
            rv == keyed_view(records@),
            head == KEY_GLYPHS@ + " = (\n"@,
            0 <= i <= order@.len(),
            glyph_codes(ov.take(i as int), rv) == Ok::<_, UnpackError>(cs),
            cs.len() == i,
            out@ == head + joined(cs, ","@),
        decreases order@.len() - i,
    {
        let name = order[i].as_str();
        let mut j: usize = records.len();
        proof {
            assert(rv.take(j as int) =~= rv);
        }
        while j > 0 && !str_eq(records[j - 1].0.as_str(), name)
            invariant
                rv == keyed_view(records@),
                0 <= j <= records@.len(),
                name@ == ov[i as int],
                lookup(rv, name@) == lookup(rv.take(j as int), name@),
            decreases j,
        {
            proof {
                assert(rv.take(j as int).drop_last() =~= rv.take(j - 1));
            }
            j = j - 1;
        }
        proof {
            assert(ov.take(i + 1).drop_last() =~= ov.take(i as int));
            assert(ov.take(i + 1).last() == ov[i as int]);
        }
        if j == 0 {
            proof {
                lemma_glyph_codes_err(ov, rv, i + 1);
            }
            return Err(UnpackError::MissingGlyph(i));
        }
        proof {
            assert(rv.take(j as int).last() == rv[j - 1]);
        }
        let code = trim_str(records[j - 1].1.as_str());
        let ghost before = out@;
        if i > 0 {
            push_char(&mut out, ',');
        }
        push_str(&mut out, code);
        proof {
            reveal_strlit(",");
            let cs2 = cs.push(code@);
            assert(cs2.drop_last() =~= cs);
            if i == 0 {
                assert(joined(cs, ","@) =~= Seq::<char>::empty());
                assert(out@ =~= head + joined(cs2, ","@));
            } else {
                assert(out@ =~= head + joined(cs2, ","@));
            }
            cs = cs2;
        }
        i = i + 1;
    }
    push_str(&mut out, "\n);");
    proof {
        assert(ov.take(order@.len() as int) =~= ov);
        assert(out@ =~= glyphs_code(cs));
    }
    Ok(out)
}

/// Whether `a` comes no later than `b` in the order of keys.
fn key_le_exec(a: &str, b: &str) -> (r: bool)
    ensures
        r == key_le(a@, b@),
{
    let x = a.as_bytes();
    let y = b.as_bytes();
    let mut i: usize = 0;
    proof {
        assert(x@.skip(0) =~= x@);
        assert(y@.skip(0) =~= y@);
    }
    loop
        invariant
            x@ == encode_utf8(a@),
            y@ == encode_utf8(b@),
            0 <= i <= x@.len(),
            0 <= i <= y@.len(),
            bytes_le(x@, y@) == bytes_le(x@.skip(i as int), y@.skip(i as int)),
        decreases x@.len() - i,
    {
        if i == x.len() {
            return true;
        }
        if i == y.len() {
            return false;
        }
        proof {
            assert(x@.skip(i as int)[0] == x@[i as int]);
            assert(y@.skip(i as int)[0] == y@[i as int]);
            assert(x@.skip(i as int).drop_first() =~= x@.skip(i + 1));
            assert(y@.skip(i as int).drop_first() =~= y@.skip(i + 1));
        }
        if x[i] != y[i] {
            return x[i] < y[i];
        }
        i = i + 1;
    }
}

/// The entries sorted by key; entries with equal keys keep their order.
fn sort_entries(v: &Vec<(String, String)>) -> (r: Vec<(String, String)>)
    ensures
        keyed_view(r@) == sort_by_key(keyed_view(v@)),
{
    let ghost vv = keyed_view(v@);
    let mut out: Vec<(String, String)> = Vec::new();
    let mut i: usize = 0;
    proof {
        assert(vv.take(0) =~= Seq::<(Seq<char>, Seq<char>)>::empty());
    }
    while i < v.len()
        invariant
            vv == keyed_view(v@),
            0 <= i <= v@.len(),
            keyed_view(out@) == sort_by_key(vv.take(i as int)),
        decreases v@.len() - i,
    {
        let ghost ov = keyed_view(out@);
        let ghost e = vv[i as int];
        let mut p: usize = out.len();
        proof {
            assert(ov.take(p as int) =~= ov);
            assert(ov.skip(p as int) =~= Seq::<(Seq<char>, Seq<char>)>::empty());
        }
        while p > 0 && !key_le_exec(out[p - 1].0.as_str(), v[i].0.as_str())
            invariant
                ov == keyed_view(out@),
                vv == keyed_view(v@),
                i < v@.len(),
                e == vv[i as int],
                0 <= p <= out@.len(),
                insert_by_key(ov, e) == insert_by_key(ov.take(p as int), e) + ov.skip(p as int),
            decreases p,
        {
            proof {
                let t = ov.take(p as int);
                assert(t.drop_last() =~= ov.take(p - 1));
                assert(t.last() == ov[p - 1]);
                assert(!key_le(t.last().0, e.0));
                assert(insert_by_key(ov.take(p - 1), e).push(ov[p - 1]) + ov.skip(p as int)
                    =~= insert_by_key(ov.take(p - 1), e) + ov.skip(p - 1));
            }
            p = p - 1;
        }
        let item = (v[i].0.clone(), v[i].1.clone());
        out.insert(p, item);
        proof {
            assert(vv.take(i + 1).drop_last() =~= vv.take(i as int));
            assert(vv.take(i + 1).last() == e);
            if p > 0 {
                assert(ov.take(p as int).last() == ov[p - 1]);
                assert(ov.take(p as int).drop_last() =~= ov.take(p - 1));
            }
            assert(keyed_view(out@) =~= ov.take(p as int) + seq![e] + ov.skip(p as int));
            assert(insert_by_key(ov.take(p as int), e) =~= ov.take(p as int) + seq![e]) by {
                if p == 0 {
                    assert(ov.take(0) =~= Seq::<(Seq<char>, Seq<char>)>::empty());
                }
            }
        }
        i = i + 1;
    }
    proof {
        assert(vv.take(v@.len() as int) =~= vv);
    }
    out
}

/// The text of a standalone file with the given entries (each a key and a code): the
/// codes, sorted by key, in one dictionary.
pub fn standalone_text(entries: &Vec<(String, String)>) -> (r: String)
    ensures
        r@ == spec_standalone_text(keyed_view(entries@)),
{
    let sorted = sort_entries(entries);
    let mut codes: Vec<&str> = Vec::new();
    let mut i: usize = 0;
    while i < sorted.len()
        invariant
            0 <= i <= sorted@.len(),
            codes@.len() == i,
            forall|k: int| 0 <= k < i ==> (#[trigger] codes@[k])@ == sorted@[k].1@,
        decreases sorted@.len() - i,
    {
        codes.push(sorted[i].1.as_str());
        i = i + 1;
    }
    proof {
        assert(texts(codes@) =~= codes_of(keyed_view(sorted@)));
    }
    dict_file_text(codes.as_slice())
}

/// What an optional text holds.
pub open spec fn opt_text(o: Option<&str>) -> Option<Seq<char>> {
    match o {
        Some(t) => Some(t@),
        None => None,
    }
}

proof fn lemma_glyph_records_err(files: Seq<Seq<char>>, j: int)
    requires
        0 <= j <= files.len(),
        glyph_records(files.take(j)) is Err,
    ensures
        glyph_records(files) == glyph_records(files.take(j)),
    decreases files.len() - j,
{
    if j < files.len() {
        assert(files.take(j + 1).drop_last() =~= files.take(j));
        lemma_glyph_records_err(files, j + 1);
    } else {
        assert(files.take(j) =~= files);
    }
}

/// The glyph name and text of each glyph file, in order.
pub fn glyph_file_records(files: &Vec<String>) -> (r: Result<Vec<(String, String)>, UnpackError>)
    ensures
        match r {
            Ok(v) => glyph_records(strings_view(files@)) == Ok::<_, UnpackError>(keyed_view(v@)),
            Err(e) => glyph_records(strings_view(files@)) == Err::<
                Seq<(Seq<char>, Seq<char>)>,
                _,
            >(e),
        },
{
    let ghost fv = strings_view(files@);
    let mut out: Vec<(String, String)> = Vec::new();
    let mut i: usize = 0;
    proof {
        assert(fv.take(0) =~= Seq::<Seq<char>>::empty());
        assert(keyed_view(out@) =~= Seq::<(Seq<char>, Seq<char>)>::empty());
    }
    while i < files.len()
        invariant
            fv == strings_view(files@),
            0 <= i <= files@.len(),
            glyph_records(fv.take(i as int)) == Ok::<_, UnpackError>(keyed_view(out@)),
        decreases files@.len() - i,
    {
        proof {
            assert(fv.take(i + 1).drop_last() =~= fv.take(i as int));
            assert(fv.take(i + 1).last() == files@[i as int]@);
        }
        match glyph_name(files[i].as_str()) {
            Ok(n) => {
                let ghost before = out@;
                out.push((n, files[i].clone()));
                proof {
                    assert(keyed_view(out@) =~= keyed_view(before).push((n@, files@[i as int]@)));
                }
            },
            Err(e) => {
                proof {
                    lemma_glyph_records_err(fv, i + 1);
                }
                return Err(UnpackError::Glyph(i, e));
            },
        }
        i = i + 1;
    }
    proof {
        assert(fv.take(files@.len() as int) =~= fv);
    }
    Ok(out)
}

/// Joins the files of a package into the text of a standalone file: the entries of the font
/// info, the `glyphs` entry made from the order and the glyph files (in any order), and the
/// entries of the UI state when there is one, sorted by key.
pub fn unpack_files(
    fontinfo: &str,
    order: &str,
    glyph_files: &Vec<String>,
    ui_state: Option<&str>,
) -> (r: Result<String, UnpackError>)
    ensures
        match r {
            Ok(t) => spec_unpack(fontinfo@, order@, strings_view(glyph_files@), opt_text(ui_state))
                == Ok::<_, UnpackError>(t@),
            Err(e) => spec_unpack(
                fontinfo@,
                order@,
                strings_view(glyph_files@),
                opt_text(ui_state),
            ) == Err::<Seq<char>, _>(e),
        },
{
    let mut entries = match fontinfo_entries(fontinfo) {
        Ok(v) => v,
        Err(e) => {
            return Err(e);
        },
    };
    let names = match order_names(order) {
        Ok(v) => v,
        Err(e) => {
            return Err(e);
        },
    };
    let records = match glyph_file_records(glyph_files) {
        Ok(v) => v,
        Err(e) => {
            return Err(e);
        },
    };
    let glyphs = match glyphs_entry(&names, &records) {
        Ok(t) => t,
        Err(e) => {
            return Err(e);
        },
    };
    let ghost fi = keyed_view(entries@);
    entries.push((KEY_GLYPHS.to_owned(), glyphs));
    proof {
        assert(keyed_view(entries@) =~= fi.push((KEY_GLYPHS@, glyphs@)));
    }
    match ui_state {
        None => {},
        Some(u) => {
            let mut ue = match ui_state_entries(u) {
                Ok(v) => v,
                Err(e) => {
                    return Err(e);
                },
            };
            let ghost front = keyed_view(entries@);
            let ghost back = keyed_view(ue@);
            entries.append(&mut ue);
            proof {
                assert(keyed_view(entries@) =~= front + back);
            }
        },
    }
    Ok(standalone_text(&entries))
}

/// Whether the entries are in key order.
pub open spec fn sorted_by_key(s: Seq<(Seq<char>, Seq<char>)>) -> bool {
    forall|i: int, j: int| 0 <= i < j < s.len() ==> key_le(#[trigger] s[i].0, #[trigger] s[j].0)
}

proof fn lemma_bytes_le_total(x: Seq<u8>, y: Seq<u8>)
    ensures
        bytes_le(x, y) || bytes_le(y, x),
    decreases x.len(),
{
    if x.len() > 0 && y.len() > 0 && x[0] == y[0] {
        lemma_bytes_le_total(x.drop_first(), y.drop_first());
    }
}

proof fn lemma_bytes_le_trans(x: Seq<u8>, y: Seq<u8>, z: Seq<u8>)
    requires
        bytes_le(x, y),
        bytes_le(y, z),
    ensures
        bytes_le(x, z),
    decreases x.len(),
{
    if x.len() > 0 && y.len() > 0 && z.len() > 0 && x[0] == y[0] && y[0] == z[0] {
        lemma_bytes_le_trans(x.drop_first(), y.drop_first(), z.drop_first());
    }
}

proof fn lemma_key_le_total(a: Seq<char>, b: Seq<char>)
    ensures
        key_le(a, b) || key_le(b, a),
{
    lemma_bytes_le_total(encode_utf8(a), encode_utf8(b));
}

proof fn lemma_key_le_trans(a: Seq<char>, b: Seq<char>, c: Seq<char>)
    requires
        key_le(a, b),
        key_le(b, c),
    ensures
        key_le(a, c),
{
    lemma_bytes_le_trans(encode_utf8(a), encode_utf8(b), encode_utf8(c));
}

proof fn lemma_insert_by_key(s: Seq<(Seq<char>, Seq<char>)>, e: (Seq<char>, Seq<char>))
    ensures
        insert_by_key(s, e).to_multiset() == s.to_multiset().insert(e),
        sorted_by_key(s) ==> sorted_by_key(insert_by_key(s, e)),
        insert_by_key(s, e).len() == s.len() + 1,
        forall|x: (Seq<char>, Seq<char>)| #[trigger]
            insert_by_key(s, e).contains(x) ==> x == e || s.contains(x),
    decreases s.len(),
{
    broadcast use vstd::seq_lib::group_to_multiset_ensures;

    if s.len() == 0 {
        assert(seq![e].to_multiset() =~= Multiset::<(Seq<char>, Seq<char>)>::empty().insert(e)) by {
            assert(seq![e] =~= Seq::<(Seq<char>, Seq<char>)>::empty().push(e));
        }
        assert forall|x: (Seq<char>, Seq<char>)| #[trigger] seq![e].contains(x) implies x == e by {
            let k = choose|k: int| 0 <= k < 1 && seq![e][k] == x;
        }
    } else if key_le(s.last().0, e.0) {
        assert forall|x: (Seq<char>, Seq<char>)| #[trigger] s.push(e).contains(x) implies x == e
            || s.contains(x) by {
            let k = choose|k: int| 0 <= k < s.len() + 1 && s.push(e)[k] == x;
            if k < s.len() {
                assert(s[k] == x);
            }
        }
        if sorted_by_key(s) {
            assert forall|i: int, j: int| 0 <= i < j < s.len() + 1 implies key_le(
                #[trigger] s.push(e)[i].0,
                #[trigger] s.push(e)[j].0,
            ) by {
                if j == s.len() {
                    if i < s.len() - 1 {
                        lemma_key_le_trans(s[i].0, s.last().0, e.0);
                    }
                }
            }
        }
    } else {
        let front = s.drop_last();
        let last = s.last();
        lemma_insert_by_key(front, e);
        let ins = insert_by_key(front, e);
        assert(s =~= front.push(last));
        assert(ins.push(last).to_multiset() == ins.to_multiset().insert(last));
        assert(s.to_multiset() == front.to_multiset().insert(last));
        assert(ins.push(last).to_multiset() =~= s.to_multiset().insert(e));
        assert forall|x: (Seq<char>, Seq<char>)| #[trigger] ins.push(last).contains(x) implies x
            == e || s.contains(x) by {
            let k = choose|k: int| 0 <= k < ins.len() + 1 && ins.push(last)[k] == x;
            if k < ins.len() {
                assert(ins.contains(x));
                if x != e {
                    let m = choose|m: int| 0 <= m < front.len() && front[m] == x;
                    assert(s[m] == x);
                }
            } else {
                assert(s[s.len() - 1] == x);
            }
        }
        if sorted_by_key(s) {
            assert(sorted_by_key(front)) by {
                assert forall|i: int, j: int| 0 <= i < j < front.len() implies key_le(
                    #[trigger] front[i].0,
                    #[trigger] front[j].0,
                ) by {
                    assert(front[i] == s[i] && front[j] == s[j]);
                }
            }
            lemma_key_le_total(last.0, e.0);
            assert forall|i: int, j: int| 0 <= i < j < ins.len() + 1 implies key_le(
                #[trigger] ins.push(last)[i].0,
                #[trigger] ins.push(last)[j].0,
            ) by {
                if j == ins.len() {
                    let x = ins[i];
                    assert(ins.contains(x));
                    if x != e {
                        let m = choose|m: int| 0 <= m < front.len() && front[m] == x;
                        assert(s[m] == x);
                        assert(key_le(s[m].0, s[s.len() - 1].0));
                    }
                }
            }
        }
    }
}

/// Law: the entries sorted by key are in key order, and are the same entries as before.
pub proof fn law_sort_by_key(s: Seq<(Seq<char>, Seq<char>)>)
    ensures
        sorted_by_key(sort_by_key(s)),
        sort_by_key(s).to_multiset() == s.to_multiset(),
    decreases s.len(),
{
    broadcast use vstd::seq_lib::group_to_multiset_ensures;

    if s.len() > 0 {
        law_sort_by_key(s.drop_last());
        lemma_insert_by_key(sort_by_key(s.drop_last()), s.last());
        assert(s =~= s.drop_last().push(s.last()));
    } else {
        assert(s.to_multiset() =~= Multiset::<(Seq<char>, Seq<char>)>::empty());
    }
}

/// The first `glyphname` entry decides: none at all is `Missing`; otherwise its value, which
/// must be a string.
proof fn lemma_first_glyph_name(es: Seq<SpecEntry>)
    ensures
        (forall|i: int| 0 <= i < es.len() ==> (#[trigger] es[i]).key != KEY_GLYPH_NAME@)
            ==> first_glyph_name(es) == Err::<Seq<char>, _>(GlyphNameError::Missing),
        forall|i: int|
            0 <= i < es.len() && (#[trigger] es[i]).key == KEY_GLYPH_NAME@ && (forall|j: int|
                0 <= j < i ==> es[j].key != KEY_GLYPH_NAME@) ==> first_glyph_name(es) == name_in(
                es[i],
            ),
    decreases es.len(),
{
    if es.len() > 0 {
        let rest = es.drop_first();
        lemma_first_glyph_name(rest);
        if es[0].key != KEY_GLYPH_NAME@ {
            if forall|i: int| 0 <= i < es.len() ==> (#[trigger] es[i]).key != KEY_GLYPH_NAME@ {
                assert forall|i: int| 0 <= i < rest.len() implies (#[trigger] rest[i]).key
                    != KEY_GLYPH_NAME@ by {
                    assert(rest[i] == es[i + 1]);
                }
            }
            assert forall|i: int|
                0 <= i < es.len() && (#[trigger] es[i]).key == KEY_GLYPH_NAME@ && (forall|j: int|
                    0 <= j < i ==> es[j].key != KEY_GLYPH_NAME@) implies first_glyph_name(es)
                == name_in(es[i]) by {
                assert(i > 0);
                assert(rest[i - 1] == es[i]);
                assert forall|j: int| 0 <= j < i - 1 implies rest[j].key != KEY_GLYPH_NAME@ by {
                    assert(rest[j] == es[j + 1]);
                }
            }
        } else {
            assert forall|i: int|
                0 <= i < es.len() && (#[trigger] es[i]).key == KEY_GLYPH_NAME@ && (forall|j: int|
                    0 <= j < i ==> es[j].key != KEY_GLYPH_NAME@) implies first_glyph_name(es)
                == name_in(es[i]) by {
                if i > 0 {
                    assert(es[0].key != KEY_GLYPH_NAME@);
                }
            }
        }
    }
}

/// The entries of the dictionary that a file starts with (none when it does not parse).
pub open spec fn file_entries(c: Seq<char>) -> Seq<SpecEntry> {
    match parse_root(Root::Dict, c) {
        Some(sl) => match sl.value {
            SpecValue::Dict(es) => es,
            _ => seq![],
        },
        None => seq![],
    }
}

/// The name that a `glyphname` entry gives: its value, which must be a string.
pub open spec fn name_in(e: SpecEntry) -> Result<Seq<char>, GlyphNameError> {
    match e.value.value {
        SpecValue::String(n) => Ok(n),
        _ => Err(GlyphNameError::NotString),
    }
}

/// Law: the glyph name that a glyph file gives is found wherever its `glyphname` entry
/// stands: a file that parses to a dictionary gives `Missing` exactly when no entry has the
/// key `glyphname`; otherwise the first entry with that key decides, its string value being
/// the name (`NotString` if the value is no string).
pub proof fn law_glyph_name_found(c: Seq<char>)
    requires
        parse_root(Root::Dict, c) is Some,
    ensures
        (spec_glyph_name(c) == Err::<Seq<char>, _>(GlyphNameError::Missing)) == (forall|i: int|
            0 <= i < file_entries(c).len() ==> (#[trigger] file_entries(c)[i]).key
                != KEY_GLYPH_NAME@),
        forall|i: int|
            0 <= i < file_entries(c).len() && (#[trigger] file_entries(c)[i]).key
                == KEY_GLYPH_NAME@ && (forall|j: int|
                0 <= j < i ==> file_entries(c)[j].key != KEY_GLYPH_NAME@) ==> spec_glyph_name(c)
                == name_in(file_entries(c)[i]),
{
    let es = file_entries(c);
    lemma_first_glyph_name(es);
    assert(spec_glyph_name(c) == first_glyph_name(es));
    assert forall|i: int|
        0 <= i < es.len() && (#[trigger] es[i]).key == KEY_GLYPH_NAME@ && (forall|j: int|
            0 <= j < i ==> es[j].key != KEY_GLYPH_NAME@) implies spec_glyph_name(c) == name_in(
        es[i],
    ) by {}
    if !(forall|i: int| 0 <= i < es.len() ==> (#[trigger] es[i]).key != KEY_GLYPH_NAME@) {
        let i0 = choose|i: int| 0 <= i < es.len() && (#[trigger] es[i]).key == KEY_GLYPH_NAME@;
        lemma_first_key(es, i0);
        let i1 = choose|i: int|
            0 <= i < es.len() && (#[trigger] es[i]).key == KEY_GLYPH_NAME@ && (forall|j: int|
                0 <= j < i ==> es[j].key != KEY_GLYPH_NAME@);
        assert(spec_glyph_name(c) == name_in(es[i1]));
    }
}

/// Some entry has the key `glyphname`: then a first one has.
proof fn lemma_first_key(es: Seq<SpecEntry>, i0: int)
    requires
        0 <= i0 < es.len(),
        es[i0].key == KEY_GLYPH_NAME@,
    ensures
        exists|i: int|
            0 <= i < es.len() && (#[trigger] es[i]).key == KEY_GLYPH_NAME@ && (forall|j: int|
                0 <= j < i ==> es[j].key != KEY_GLYPH_NAME@),
    decreases i0,
{
    if exists|j: int| 0 <= j < i0 && (#[trigger] es[j]).key == KEY_GLYPH_NAME@ {
        let j = choose|j: int| 0 <= j < i0 && (#[trigger] es[j]).key == KEY_GLYPH_NAME@;
        lemma_first_key(es, j);
    } else {
        assert(es[i0].key == KEY_GLYPH_NAME@);
    }
}

/// `y` does not come before `x` in the order of bytes: it is not a proper prefix of `x`,
/// and at no place where they first differ is its byte the smaller.
pub open spec fn not_before(y: Seq<u8>, x: Seq<u8>) -> bool {
    &&& !(y.len() < x.len() && x.take(y.len() as int) == y)
    &&& forall|p: int|
        0 <= p < x.len() && p < y.len() && x.take(p) == y.take(p) ==> !(y[p] < x[p])
}

proof fn lemma_bytes_le_not_before(x: Seq<u8>, y: Seq<u8>)
    requires
        bytes_le(x, y),
    ensures
        not_before(y, x),
    decreases x.len(),
{
    if x.len() > 0 && y.len() > 0 {
        if x[0] != y[0] {
            if y.len() < x.len() && x.take(y.len() as int) == y {
                assert(x.take(y.len() as int)[0] == x[0]);
            }
            assert forall|p: int|
                0 <= p < x.len() && p < y.len() && x.take(p) == y.take(p) implies !(y[p] < x[p]) by {
                if p > 0 {
                    assert(x.take(p)[0] == x[0]);
                    assert(y.take(p)[0] == y[0]);
                }
            }
        } else {
            let x1 = x.drop_first();
            let y1 = y.drop_first();
            lemma_bytes_le_not_before(x1, y1);
            if y.len() < x.len() && x.take(y.len() as int) == y {
                assert(x1.take(y1.len() as int) =~= x.take(y.len() as int).drop_first());
            }
            assert forall|p: int|
                0 <= p < x.len() && p < y.len() && x.take(p) == y.take(p) implies !(y[p] < x[p]) by {
                if p > 0 {
                    assert(x1.take(p - 1) =~= x.take(p).drop_first());
                    assert(y1.take(p - 1) =~= y.take(p).drop_first());
                    assert(x1[p - 1] == x[p] && y1[p - 1] == y[p]);
                }
            }
        }
    }
}

/// Law: the entries of a standalone file are written in the order of their keys' UTF-8
/// bytes, as strings are compared: no entry comes after one whose key is a proper prefix
/// of its own key's bytes, or whose key has the larger byte where the two first differ.
pub proof fn law_standalone_key_order(s: Seq<(Seq<char>, Seq<char>)>)
    ensures
        forall|i: int, j: int|
            0 <= i < j < sort_by_key(s).len() ==> not_before(
                encode_utf8(#[trigger] sort_by_key(s)[j].0),
                encode_utf8(#[trigger] sort_by_key(s)[i].0),
            ),
{
    law_sort_by_key(s);
    let r = sort_by_key(s);
    assert forall|i: int, j: int| 0 <= i < j < r.len() implies not_before(
        encode_utf8(#[trigger] r[j].0),
        encode_utf8(#[trigger] r[i].0),
    ) by {
        assert(key_le(r[i].0, r[j].0));
        lemma_bytes_le_not_before(encode_utf8(r[i].0), encode_utf8(r[j].0));
    }
}

} // verus!

//! Splitting a standalone Glyphs file into the files of a package.
use vstd::prelude::*;

use crate::grammar::{SpecEntry, SpecSlice, SpecValue};
use crate::plist::{
    Root, Value, array_file_text, array_text, dict_file_text, dict_text, entries_view, parse,
    parse_root, slices_view, texts,
};
use crate::text::{chars_of, cow_str, push_char, push_str, str_eq};
use crate::{KEY_DISPLAY_STRINGS_PACKAGE, KEY_DISPLAY_STRINGS_STANDALONE, KEY_GLYPHS, KEY_GLYPH_NAME};

verus! {

/// A leading `.` becomes `_`.
pub open spec fn undot(t: Seq<char>) -> Seq<char> {
    if t.len() > 0 && t[0] == '.' {
        seq!['_'] + t.drop_first()
    } else {
        t
    }
}

pub open spec fn is_capital(c: char) -> bool {
    'A' <= c && c <= 'Z'
}

/// Every capital ASCII letter is followed by `_`.
pub open spec fn mark_capitals(t: Seq<char>) -> Seq<char>
    decreases t.len(),
{
    if t.len() == 0 {
        seq![]
    } else {
        mark_capitals(t.drop_last()) + if is_capital(t.last()) {
            seq![t.last(), '_']
        } else {
            seq![t.last()]
        }
    }
}

/// The ASCII upper case of a character; other characters are unchanged.
pub open spec fn ascii_upper(c: char) -> char {
    if 'a' <= c && c <= 'z' {
        ((c as u32) - 32) as char
    } else {
        c
    }
}

/// The names that files cannot have on Windows, in upper case.
pub open spec fn reserved_names() -> Seq<Seq<char>> {
    seq![
        "CON"@, "CLOCK$"@, "PRN"@, "AUX"@, "NUL"@, "COM1"@, "COM2"@, "COM3"@, "COM4"@,
        "COM5"@, "COM6"@, "COM7"@, "COM8"@, "COM9"@, "LPT1"@, "LPT2"@, "LPT3"@, "LPT4"@,
        "LPT5"@, "LPT6"@, "LPT7"@, "LPT8"@,
    ]
}

/// Whether `part`, compared without regard to ASCII case, is a reserved name.
pub open spec fn is_reserved(part: Seq<char>) -> bool {
    exists|k: int|
        0 <= k < reserved_names().len() && #[trigger] reserved_names()[k] == part.map_values(
            |c: char| ascii_upper(c),
        )
}

/// The length of the part of `t` before its first `.` (all of `t` when it has none).
pub open spec fn dot_index(t: Seq<char>) -> int
    decreases t.len(),
{
    if t.len() == 0 {
        0
    } else if t[0] == '.' {
        0
    } else {
        1 + dot_index(t.drop_first())
    }
}

/// Each `.`-separated part of `t` that is a reserved name gets a leading `_`.
pub open spec fn escape_parts(t: Seq<char>) -> Seq<char>
    decreases t.len(),
{
    let k = dot_index(t);
    let part = t.take(k);
    let escaped = if is_reserved(part) {
        seq!['_'] + part
    } else {
        part
    };
    if k < 0 || k >= t.len() {
        escaped
    } else {
        escaped + seq!['.'] + escape_parts(t.skip(k + 1))
    }
}

/// The name of the file that holds the glyph `name` in a package.
pub open spec fn spec_glyph_filename(name: Seq<char>) -> Seq<char> {
    escape_parts(mark_capitals(undot(name))) + ".glyph"@
}

proof fn lemma_dot_index(t: Seq<char>, q: int)
    requires
        0 <= q <= t.len(),
        forall|m: int| 0 <= m < q ==> t[m] != '.',
        q == t.len() || t[q] == '.',
    ensures
        dot_index(t) == q,
    decreases q,
{
    if q > 0 {
        lemma_dot_index(t.drop_first(), q - 1);
    }
}

proof fn lemma_dot_index_bounds(t: Seq<char>)
    ensures
        0 <= dot_index(t) <= t.len(),
    decreases t.len(),
{
    if t.len() > 0 && t[0] != '.' {
        lemma_dot_index_bounds(t.drop_first());
    }
}

/// Whether the characters `t[a..b]` are a reserved name, regardless of ASCII case.
fn is_reserved_part(t: &Vec<char>, a: usize, b: usize) -> (r: bool)
    requires
        a <= b <= t@.len(),
    ensures
        r == is_reserved(t@.subrange(a as int, b as int)),
{
    let names = reserved_name_list();
    let ghost part = t@.subrange(a as int, b as int);
    let ghost up = part.map_values(|c: char| ascii_upper(c));
    let mut k: usize = 0;
    while k < names.len()
        invariant
            names@.len() == reserved_names().len(),
            forall|m: int| 0 <= m < names@.len() ==> #[trigger] names@[m]@ == reserved_names()[m],
            a <= b <= t@.len(),
            part == t@.subrange(a as int, b as int),
            up == part.map_values(|c: char| ascii_upper(c)),
            0 <= k <= names@.len(),
            forall|m: int| 0 <= m < k ==> reserved_names()[m] != up,
        decreases names@.len() - k,
    {
        let name = chars_of(names[k]);
        if name.len() == b - a {
            let mut i: usize = 0;
            let mut same = true;
            while i < name.len()
                invariant
                    name@.len() == b - a,
                    a <= b <= t@.len(),
                    0 <= i <= name@.len(),
                    same == forall|m: int| 0 <= m < i ==> name@[m] == ascii_upper(t@[a + m]),
                decreases name@.len() - i,
            {
                let eq = upper_char(t[a + i]) == name[i];
                same = same && eq;
                i = i + 1;
            }
            if same {
                proof {
                    assert forall|m: int| 0 <= m < up.len() implies up[m] == name@[m] by {
                        assert(part[m] == t@[a + m]);
                    }
                    assert(name@ =~= up);
                    assert(reserved_names()[k as int] == up);
                }
                return true;
            } else {
                proof {
                    if reserved_names()[k as int] == up {
                        assert(forall|m: int| 0 <= m < name@.len() ==> name@[m] == up[m]);
                    }
                }
            }
        } else {
            proof {
                assert(name@.len() != up.len());
            }
        }
        k = k + 1;
    }
    false
}

/// The ASCII upper case of `c`.
fn upper_char(c: char) -> (r: char)
    ensures
        r == ascii_upper(c),
{
    if 'a' <= c && c <= 'z' {
        ((c as u8) - 32) as char
    } else {
        c
    }
}

fn reserved_name_list() -> (r: Vec<&'static str>)
    ensures
        r@.len() == reserved_names().len(),
        forall|m: int| 0 <= m < r@.len() ==> #[trigger] r@[m]@ == reserved_names()[m],
{
    vec![
        "CON", "CLOCK$", "PRN", "AUX", "NUL", "COM1", "COM2", "COM3", "COM4", "COM5", "COM6",
        "COM7", "COM8", "COM9", "LPT1", "LPT2", "LPT3", "LPT4", "LPT5", "LPT6", "LPT7", "LPT8",
    ]
}

/// `regex::Regex::new(pattern)`, then `Regex::replacen(text, 1, rep)`: the first match of
/// the pattern in `text` replaced by `rep`. Claimed for the one use made of it: the pattern
/// `^\.` (a dot at the start) and `_`, which replace a leading dot by `_`.
#[verifier::external_body]
fn replace_first(pattern: &str, text: &str, rep: &str) -> (r: String)
    requires
        pattern@ == "^\\."@,
        rep@ == "_"@,
    ensures
        r@ == undot(text@),
{
    regex::Regex::new(pattern).unwrap().replacen(text, 1, rep).into_owned()
}

/// `regex::Regex::new(pattern)`, then `Regex::replace_all(text, rep)`: every match of the
/// pattern in `text` replaced by `rep`, in which `${0}` stands for the match. Claimed for
/// the one use made of it: the pattern `[A-Z]` and `${0}_`, which put `_` after every
/// capital ASCII letter.
#[verifier::external_body]
fn replace_every(pattern: &str, text: &str, rep: &str) -> (r: String)
    requires
        pattern@ == "[A-Z]"@,
        rep@ == "${0}_"@,
    ensures
        r@ == mark_capitals(text@),
{
    regex::Regex::new(pattern).unwrap().replace_all(text, rep).into_owned()
}

/// The name of the file that holds the glyph `glyphname` in a package: a leading `.`
/// becomes `_`, every capital ASCII letter is followed by `_`, every `.`-separated part
/// that is a name reserved on Windows gets a leading `_`, and `.glyph` is appended.
pub fn glyph_filename(glyphname: &str) -> (r: String)
    ensures
        r@ == spec_glyph_filename(glyphname@),
{
    let undotted = replace_first("^\\.", glyphname, "_");
    let marked = replace_every("[A-Z]", undotted.as_str(), "${0}_");
    let stem = chars_of(marked.as_str());
    let ghost t = stem@;
    // Reserved parts are escaped.
    let mut out = String::new();
    let mut p: usize = 0;
    proof {
        assert(t.skip(0) =~= t);
        assert(out@ + escape_parts(t.skip(0)) =~= escape_parts(t));
    }
    loop
        invariant_except_break
            t == stem@,
            0 <= p <= t.len(),
            out@ + escape_parts(t.skip(p as int)) == escape_parts(t),
        ensures
            out@ == escape_parts(t),
        decreases t.len() - p,
    {
        let mut q = p;
        while q < stem.len() && stem[q] != '.'
            invariant
                p <= q <= t.len(),
                t == stem@,
                forall|m: int| p <= m < q ==> t[m] != '.',
            decreases t.len() - q,
        {
            q = q + 1;
        }
        let ghost u = t.skip(p as int);
        proof {
            lemma_dot_index(u, q - p);
            assert(u.take(q - p) =~= t.subrange(p as int, q as int));
        }
        let reserved = is_reserved_part(&stem, p, q);
        let ghost before = out@;
        if reserved {
            push_char(&mut out, '_');
        }
        let mut m = p;
        while m < q
            invariant
                p <= m <= q <= t.len(),
                t == stem@,
                out@ == before + (if reserved { seq!['_'] } else { seq![] }) + t.subrange(
                    p as int,
                    m as int,
                ),
            decreases q - m,
        {
            push_char(&mut out, stem[m]);
            proof {
                assert(t.subrange(p as int, m + 1) =~= t.subrange(p as int, m as int).push(t[m as int]));
            }
            m = m + 1;
        }
        let ghost part = t.subrange(p as int, q as int);
        let ghost escaped = if is_reserved(part) { seq!['_'] + part } else { part };
        proof {
            assert(out@ =~= before + escaped);
        }
        if q == stem.len() {
            proof {
                assert(escape_parts(u) == escaped);
                assert(out@ == escape_parts(t));
            }
            break;
        }
        push_char(&mut out, '.');
        proof {
            assert(u.skip(q - p + 1) =~= t.skip(q + 1));
            assert(escape_parts(u) == escaped + seq!['.'] + escape_parts(t.skip(q + 1)));
            assert(out@ + escape_parts(t.skip(q + 1)) =~= before + escape_parts(u));
        }
        p = q + 1;
    }
    push_str_glyph(&mut out);
    out
}

/// Appends the file extension of glyph files.
fn push_str_glyph(out: &mut String)
    ensures
        final(out)@ == old(out)@ + ".glyph"@,
{
    proof {
        reveal_strlit(".glyph");
    }
    push_char(out, '.');
    push_char(out, 'g');
    push_char(out, 'l');
    push_char(out, 'y');
    push_char(out, 'p');
    push_char(out, 'h');
    proof {
        assert(out@ =~= old(out)@ + ".glyph"@);
    }
}

/// Why a standalone file cannot be split into a package.
#[derive(Debug, Clone, Copy, PartialEq, Eq, Structural)]
pub enum PackError {
    /// The file is not a property-list dictionary.
    Parse,
    /// The `glyphs` entry is not an array.
    GlyphsNotArray,
    /// A glyph is not a dictionary.
    GlyphNotDict,
    /// A glyph's `glyphname` is not a string.
    GlyphNameNotString,
    /// A glyph has no `glyphname`.
    GlyphNameMissing,
}

#[verifier::ext_equal]
/// The parts that a standalone file is split into, in file order: the codes of the entries
/// that stay in the font info, the glyph names, the codes of the UI-state entries, and each
/// glyph's name and code.
pub struct SpecParts {
    pub fontinfo: Seq<Seq<char>>,
    pub order: Seq<Seq<char>>,
    pub ui_state: Seq<Seq<char>>,
    pub glyphs: Seq<(Seq<char>, Seq<char>)>,
}

#[verifier::ext_equal]
/// The files of a package: font info, order, UI state (only when there is any), and each
/// glyph's file name and file text.
pub struct SpecPackage {
    pub fontinfo: Seq<char>,
    pub order: Seq<char>,
    pub ui_state: Option<Seq<char>>,
    pub glyphs: Seq<(Seq<char>, Seq<char>)>,
}

/// The name of a glyph: the value of its last `glyphname` entry, which must be a string.
pub open spec fn glyph_name_of(es: Seq<SpecEntry>) -> Result<Option<Seq<char>>, PackError>
    decreases es.len(),
{
    if es.len() == 0 {
        Ok(None)
    } else {
        match glyph_name_of(es.drop_last()) {
            Err(e) => Err(e),
            Ok(prev) => if es.last().key == KEY_GLYPH_NAME@ {
                match es.last().value.value {
                    SpecValue::String(n) => Ok(Some(n)),
                    _ => Err(PackError::GlyphNameNotString),
                }
            } else {
                Ok(prev)
            },
        }
    }
}

/// One more glyph: its name goes to the order, its name and code to the glyphs.
pub open spec fn add_glyph(p: SpecParts, g: SpecSlice) -> Result<SpecParts, PackError> {
    match g.value {
        SpecValue::Dict(es) => match glyph_name_of(es) {
            Ok(Some(n)) => Ok(SpecParts { order: p.order.push(n), glyphs: p.glyphs.push((n, g.code)), ..p }),
            Ok(None) => Err(PackError::GlyphNameMissing),
            Err(e) => Err(e),
        },
        _ => Err(PackError::GlyphNotDict),
    }
}

/// The glyphs `gs`, in order; the first error stops.
pub open spec fn add_glyphs(p: SpecParts, gs: Seq<SpecSlice>) -> Result<SpecParts, PackError>
    decreases gs.len(),
{
    if gs.len() == 0 {
        Ok(p)
    } else {
        match add_glyphs(p, gs.drop_last()) {
            Err(e) => Err(e),
            Ok(q) => add_glyph(q, gs.last()),
        }
    }
}

/// The code of the display strings in a package's UI state, made from the code of the
/// standalone file's display strings array.
pub open spec fn display_strings_code(code: Seq<char>) -> Seq<char> {
    KEY_DISPLAY_STRINGS_PACKAGE@ + " = (\n"@ + code + "\n);"@
}

/// One more top-level entry: display strings go to the UI state, glyphs to the order and
/// the glyphs, everything else to the font info.
pub open spec fn add_entry(p: SpecParts, e: SpecEntry) -> Result<SpecParts, PackError> {
    if e.key == KEY_DISPLAY_STRINGS_STANDALONE@ {
        Ok(SpecParts { ui_state: p.ui_state.push(display_strings_code(e.value.code)), ..p })
    } else if e.key == KEY_GLYPHS@ {
        match e.value.value {
            SpecValue::Array(gs) => add_glyphs(p, gs),
            _ => Err(PackError::GlyphsNotArray),
        }
    } else {
        Ok(SpecParts { fontinfo: p.fontinfo.push(e.code), ..p })
    }
}

pub open spec fn no_parts() -> SpecParts {
    SpecParts { fontinfo: seq![], order: seq![], ui_state: seq![], glyphs: seq![] }
}

/// The top-level entries `es`, in order; the first error stops.
pub open spec fn pack_parts(es: Seq<SpecEntry>) -> Result<SpecParts, PackError>
    decreases es.len(),
{
    if es.len() == 0 {
        Ok(no_parts())
    } else {
        match pack_parts(es.drop_last()) {
            Err(e) => Err(e),
            Ok(p) => add_entry(p, es.last()),
        }
    }
}

/// The files that the parts make.
pub open spec fn package_of(p: SpecParts) -> SpecPackage {
    SpecPackage {
        fontinfo: dict_text(p.fontinfo),
        order: array_text(p.order),
        ui_state: if p.ui_state.len() == 0 {
            None
        } else {
            Some(dict_text(p.ui_state))
        },
        glyphs: p.glyphs.map_values(
            |g: (Seq<char>, Seq<char>)| (spec_glyph_filename(g.0), dict_text(seq![g.1])),
        ),
    }
}

/// The package that a standalone file with the top-level entries `es` is split into.
pub open spec fn pack_entries(es: Seq<SpecEntry>) -> Result<SpecPackage, PackError> {
    match pack_parts(es) {
        Ok(p) => Ok(package_of(p)),
        Err(e) => Err(e),
    }
}

/// The package that the standalone file `s` is split into.
pub open spec fn spec_pack(s: Seq<char>) -> Result<SpecPackage, PackError> {
    match parse_root(Root::Dict, s) {
        Some(slice) => match slice.value {
            SpecValue::Dict(es) => pack_entries(es),
            _ => Err(PackError::Parse),
        },
        None => Err(PackError::Parse),
    }
}

proof fn lemma_glyph_name_err(es: Seq<SpecEntry>, j: int)
    requires
        0 <= j <= es.len(),
        glyph_name_of(es.take(j)) is Err,
    ensures
        glyph_name_of(es) == glyph_name_of(es.take(j)),
    decreases es.len() - j,
{
    if j < es.len() {
        assert(es.take(j + 1).drop_last() =~= es.take(j));
        lemma_glyph_name_err(es, j + 1);
    } else {
        assert(es.take(j) =~= es);
    }
}

proof fn lemma_add_glyphs_err(p: SpecParts, gs: Seq<SpecSlice>, j: int)
    requires
        0 <= j <= gs.len(),
        add_glyphs(p, gs.take(j)) is Err,
    ensures
        add_glyphs(p, gs) == add_glyphs(p, gs.take(j)),
    decreases gs.len() - j,
{
    if j < gs.len() {
        assert(gs.take(j + 1).drop_last() =~= gs.take(j));
        lemma_add_glyphs_err(p, gs, j + 1);
    } else {
        assert(gs.take(j) =~= gs);
    }
}

proof fn lemma_pack_parts_err(es: Seq<SpecEntry>, j: int)
    requires
        0 <= j <= es.len(),
        pack_parts(es.take(j)) is Err,
    ensures
        pack_parts(es) == pack_parts(es.take(j)),
    decreases es.len() - j,
{
    if j < es.len() {
        assert(es.take(j + 1).drop_last() =~= es.take(j));
        lemma_pack_parts_err(es, j + 1);
    } else {
        assert(es.take(j) =~= es);
    }
}

/// The files of a package, as text.
pub struct Package {
    pub fontinfo: String,
    pub order: String,
    pub ui_state: Option<String>,
    /// Each glyph's file name and file text.
    pub glyphs: Vec<(String, String)>,
}

impl View for Package {
    type V = SpecPackage;

    open spec fn view(&self) -> SpecPackage {
        SpecPackage {
            fontinfo: self.fontinfo@,
            order: self.order@,
            ui_state: match self.ui_state {
                Some(t) => Some(t@),
                None => None,
            },
            glyphs: self.glyphs@.map_values(|g: (String, String)| (g.0@, g.1@)),
        }
    }
}

pub open spec fn pairs_view(v: Seq<(&str, &str)>) -> Seq<(Seq<char>, Seq<char>)> {
    v.map_values(|g: (&str, &str)| (g.0@, g.1@))
}

pub open spec fn strings_view(v: Seq<String>) -> Seq<Seq<char>> {
    v.map_values(|t: String| t@)
}

pub open spec fn parts_view(
    fontinfo: Seq<&str>,
    order: Seq<&str>,
    ui_state: Seq<String>,
    glyphs: Seq<(&str, &str)>,
) -> SpecParts {
    SpecParts {
        fontinfo: texts(fontinfo),
        order: texts(order),
        ui_state: strings_view(ui_state),
        glyphs: pairs_view(glyphs),
    }
}

/// Splits the standalone Glyphs file `code` into the files of a package: the top-level
/// `glyphs` array gives one file per glyph (named after its `glyphname`) and the order
/// file; `DisplayStrings` goes to the UI state as `displayStrings`; every other entry
/// stays in the font info, as it was written.
pub fn pack_files(code: &str) -> (r: Result<Package, PackError>)
    ensures
        match r {
            Ok(package) => spec_pack(code@) == Ok::<SpecPackage, PackError>(package@),
            Err(e) => spec_pack(code@) == Err::<SpecPackage, PackError>(e),
        },
{
    let slice = match parse(Root::Dict, code) {
        Ok(slice) => slice,
        Err(_) => {
            return Err(PackError::Parse);
        },
    };
    let entries = match &slice.value {
        Value::Dict(entries) => entries,
        _ => {
            return Err(PackError::Parse);
        },
    };
    proof {
        crate::plist::lemma_dict_view(*entries);
    }
    let ghost ev = entries_view(entries@);
    let mut fontinfo: Vec<&str> = Vec::new();
    let mut order: Vec<&str> = Vec::new();
    let mut ui_state: Vec<String> = Vec::new();
    let mut glyphs: Vec<(&str, &str)> = Vec::new();
    let mut i: usize = 0;
    proof {
        assert(ev.take(0) =~= Seq::<SpecEntry>::empty());
        assert(parts_view(fontinfo@, order@, ui_state@, glyphs@) =~= no_parts());
    }
    while i < entries.len()
        invariant
            ev == entries_view(entries@),
            spec_pack(code@) == pack_entries(ev),
            0 <= i <= entries@.len(),
            pack_parts(ev.take(i as int)) == Ok::<SpecParts, PackError>(
                parts_view(fontinfo@, order@, ui_state@, glyphs@),
            ),
        decreases entries@.len() - i,
    {
        let entry = &entries[i];
        let ghost p0 = parts_view(fontinfo@, order@, ui_state@, glyphs@);
        let ghost e = ev[i as int];
        proof {
            assert(ev.take(i + 1).drop_last() =~= ev.take(i as int));
            assert(ev.take(i + 1).last() == e);
        }
        let key = cow_str(&entry.0);
        if str_eq(key, KEY_DISPLAY_STRINGS_STANDALONE) {
            let mut t = String::new();
            push_str(&mut t, KEY_DISPLAY_STRINGS_PACKAGE);
            push_str(&mut t, " = (\n");
            push_str(&mut t, entry.1.code);
            push_str(&mut t, "\n);");
            ui_state.push(t);
            proof {
                assert(parts_view(fontinfo@, order@, ui_state@, glyphs@) =~= SpecParts {
                    ui_state: p0.ui_state.push(display_strings_code(e.value.code)),
                    ..p0
                });
            }
        } else if str_eq(key, KEY_GLYPHS) {
            let gs = match &entry.1.value {
                Value::Array(gs) => gs,
                _ => {
                    proof {
                        lemma_pack_parts_err(ev, i + 1);
                    }
                    return Err(PackError::GlyphsNotArray);
                },
            };
            proof {
                crate::plist::lemma_array_view(*gs);
            }
            let ghost gv = slices_view(gs@);
            let mut j: usize = 0;
            proof {
                assert(gv.take(0) =~= Seq::<SpecSlice>::empty());
            }
            while j < gs.len()
                invariant
                    ev == entries_view(entries@),
                    spec_pack(code@) == pack_entries(ev),
                    i < entries@.len(),
                    e == ev[i as int],
                    e.key == KEY_GLYPHS@,
                    e.key != KEY_DISPLAY_STRINGS_STANDALONE@,
                    pack_parts(ev.take(i as int)) == Ok::<SpecParts, PackError>(p0),
                    ev.take(i + 1).drop_last() == ev.take(i as int),
                    ev.take(i + 1).last() == e,
                    gv == slices_view(gs@),
                    e.value.value == SpecValue::Array(gv),
                    0 <= j <= gs@.len(),
                    add_glyphs(p0, gv.take(j as int)) == Ok::<SpecParts, PackError>(
                        parts_view(fontinfo@, order@, ui_state@, glyphs@),
                    ),
                decreases gs@.len() - j,
            {
                let g = &gs[j];
                let ghost q = parts_view(fontinfo@, order@, ui_state@, glyphs@);
                proof {
                    assert(gv.take(j + 1).drop_last() =~= gv.take(j as int));
                    assert(gv.take(j + 1).last() == g@);
                }
                let ges = match &g.value {
                    Value::Dict(ges) => ges,
                    _ => {
                        proof {
                            lemma_add_glyphs_err(p0, gv, j + 1);
                            lemma_pack_parts_err(ev, i + 1);
                        }
                        return Err(PackError::GlyphNotDict);
                    },
                };
                proof {
                    crate::plist::lemma_dict_view(*ges);
                }
                let ghost gev = entries_view(ges@);
                let mut name: Option<&str> = None;
                let mut m: usize = 0;
                proof {
                    assert(gev.take(0) =~= Seq::<SpecEntry>::empty());
                }
                while m < ges.len()
                    invariant
                        ev == entries_view(entries@),
                        spec_pack(code@) == pack_entries(ev),
                        i < entries@.len(),
                        e == ev[i as int],
                        e.key == KEY_GLYPHS@,
                        e.key != KEY_DISPLAY_STRINGS_STANDALONE@,
                        pack_parts(ev.take(i as int)) == Ok::<SpecParts, PackError>(p0),
                        ev.take(i + 1).drop_last() == ev.take(i as int),
                        ev.take(i + 1).last() == e,
                        gv == slices_view(gs@),
                        e.value.value == SpecValue::Array(gv),
                        j < gs@.len(),
                        gv.take(j + 1).drop_last() == gv.take(j as int),
                        gv.take(j + 1).last() == gv[j as int],
                        g@ == gv[j as int],
                        add_glyphs(p0, gv.take(j as int)) == Ok::<SpecParts, PackError>(q),
                        g@.value == SpecValue::Dict(gev),
                        gev == entries_view(ges@),
                        0 <= m <= ges@.len(),
                        glyph_name_of(gev.take(m as int)) == Ok::<Option<Seq<char>>, PackError>(
                            match name {
                                Some(n) => Some(n@),
                                None => None,
                            },
                        ),
                    decreases ges@.len() - m,
                {
                    let ge = &ges[m];
                    proof {
                        assert(gev.take(m + 1).drop_last() =~= gev.take(m as int));
                        assert(gev.take(m + 1).last() == crate::plist::entry_view(ge));
                    }
                    if str_eq(cow_str(&ge.0), KEY_GLYPH_NAME) {
                        match &ge.1.value {
                            Value::String(n) => {
                                name = Some(cow_str(n));
                            },
                            _ => {
                                proof {
                                    lemma_glyph_name_err(gev, m + 1);
                                    lemma_add_glyphs_err(p0, gv, j + 1);
                                    lemma_pack_parts_err(ev, i + 1);
                                }
                                return Err(PackError::GlyphNameNotString);
                            },
                        }
                    }
                    m = m + 1;
                }
                proof {
                    assert(gev.take(ges@.len() as int) =~= gev);
                }
                let n = match name {
                    Some(n) => n,
                    None => {
                        proof {
                            lemma_add_glyphs_err(p0, gv, j + 1);
                            lemma_pack_parts_err(ev, i + 1);
                        }
                        return Err(PackError::GlyphNameMissing);
                    },
                };
                order.push(n);
                glyphs.push((n, g.code));
                proof {
                    assert(parts_view(fontinfo@, order@, ui_state@, glyphs@) =~= SpecParts {
                        order: q.order.push(n@),
                        glyphs: q.glyphs.push((n@, g@.code)),
                        ..q
                    });
                }
                j = j + 1;
            }
            proof {
                assert(gv.take(gs@.len() as int) =~= gv);
            }
        } else {
            fontinfo.push(entry.2);
            proof {
                assert(parts_view(fontinfo@, order@, ui_state@, glyphs@) =~= SpecParts {
                    fontinfo: p0.fontinfo.push(e.code),
                    ..p0
                });
            }
        }
        i = i + 1;
    }
    proof {
        assert(ev.take(entries@.len() as int) =~= ev);
    }
    let ghost parts = parts_view(fontinfo@, order@, ui_state@, glyphs@);
    let fontinfo_text = dict_file_text(fontinfo.as_slice());
    let order_text = array_file_text(order.as_slice());
    let ui_state_text = if ui_state.len() == 0 {
        None
    } else {
        let codes = string_refs(&ui_state);
        Some(dict_file_text(codes.as_slice()))
    };
    let mut files: Vec<(String, String)> = Vec::new();
    let mut k: usize = 0;
    while k < glyphs.len()
        invariant
            parts.glyphs == pairs_view(glyphs@),
            0 <= k <= glyphs@.len(),
            files@.len() == k,
            forall|m: int|
                0 <= m < k ==> (#[trigger] files@[m]).0@ == spec_glyph_filename(parts.glyphs[m].0)
                    && files@[m].1@ == dict_text(seq![parts.glyphs[m].1]),
        decreases glyphs@.len() - k,
    {
        let (n, c) = glyphs[k];
        let file_name = glyph_filename(n);
        let one = vec![c];
        let text = dict_file_text(one.as_slice());
        proof {
            assert(texts(one@) =~= seq![c@]);
        }
        files.push((file_name, text));
        k = k + 1;
    }
    proof {
        assert(strings_view(ui_state@) == parts.ui_state);
    }
    let package = Package {
        fontinfo: fontinfo_text,
        order: order_text,
        ui_state: ui_state_text,
        glyphs: files,
    };
    proof {
        assert(package@.glyphs =~= package_of(parts).glyphs);
        assert(package@ =~= package_of(parts));
    }
    Ok(package)
}

/// Borrowed views of a list of strings.
pub fn string_refs(v: &Vec<String>) -> (r: Vec<&str>)
    ensures
        texts(r@) == strings_view(v@),
{
    let mut out: Vec<&str> = Vec::new();
    let mut i: usize = 0;
    while i < v.len()
        invariant
            0 <= i <= v@.len(),
            out@.len() == i,
            forall|k: int| 0 <= k < i ==> #[trigger] out@[k]@ == v@[k]@,
        decreases v@.len() - i,
    {
        out.push(v[i].as_str());
        i = i + 1;
    }
    proof {
        assert(texts(out@) =~= strings_view(v@));
    }
    out
}

/// Each `.`-separated part of `t` is no reserved name.
pub open spec fn no_reserved_part(t: Seq<char>) -> bool
    decreases t.len(),
{
    let k = dot_index(t);
    !is_reserved(t.take(k)) && if 0 <= k < t.len() {
        no_reserved_part(t.skip(k + 1))
    } else {
        true
    }
}

/// Every reserved name starts with a letter.
proof fn lemma_reserved_names_start()
    ensures
        forall|k: int|
            0 <= k < reserved_names().len() ==> (#[trigger] reserved_names()[k]).len() > 0
                && 'A' <= reserved_names()[k][0] <= 'Z',
{
    reveal_strlit("CON");
    reveal_strlit("CLOCK$");
    reveal_strlit("PRN");
    reveal_strlit("AUX");
    reveal_strlit("NUL");
    reveal_strlit("COM1");
    reveal_strlit("COM2");
    reveal_strlit("COM3");
    reveal_strlit("COM4");
    reveal_strlit("COM5");
    reveal_strlit("COM6");
    reveal_strlit("COM7");
    reveal_strlit("COM8");
    reveal_strlit("COM9");
    reveal_strlit("LPT1");
    reveal_strlit("LPT2");
    reveal_strlit("LPT3");
    reveal_strlit("LPT4");
    reveal_strlit("LPT5");
    reveal_strlit("LPT6");
    reveal_strlit("LPT7");
    reveal_strlit("LPT8");
}

/// A part with `_` in front is no reserved name.
proof fn lemma_underscored_not_reserved(part: Seq<char>)
    ensures
        !is_reserved(seq!['_'] + part),
{
    lemma_reserved_names_start();
    let x = seq!['_'] + part;
    let up = x.map_values(|c: char| ascii_upper(c));
    assert(up[0] == '_');
    if is_reserved(x) {
        let k = choose|k: int| 0 <= k < reserved_names().len() && #[trigger] reserved_names()[k] == up;
        assert(reserved_names()[k][0] == '_');
    }
}

proof fn lemma_no_dot_before(t: Seq<char>)
    ensures
        forall|m: int| 0 <= m < dot_index(t) ==> #[trigger] t[m] != '.',
        0 <= dot_index(t) <= t.len(),
        dot_index(t) < t.len() ==> t[dot_index(t)] == '.',
    decreases t.len(),
{
    if t.len() > 0 && t[0] != '.' {
        lemma_no_dot_before(t.drop_first());
        assert forall|m: int| 0 <= m < dot_index(t) implies #[trigger] t[m] != '.' by {
            if m > 0 {
                assert(t[m] == t.drop_first()[m - 1]);
            }
        }
    }
}

/// The parts of `t`, escaped, are no reserved names.
proof fn lemma_escape_parts_not_reserved(t: Seq<char>)
    ensures
        no_reserved_part(escape_parts(t)),
    decreases t.len(),
{
    let k = dot_index(t);
    lemma_no_dot_before(t);
    let part = t.take(k);
    let escaped = if is_reserved(part) {
        seq!['_'] + part
    } else {
        part
    };
    if is_reserved(part) {
        lemma_underscored_not_reserved(part);
    }
    assert forall|m: int| 0 <= m < escaped.len() implies #[trigger] escaped[m] != '.' by {
        if is_reserved(part) && m > 0 {
            assert(escaped[m] == part[m - 1]);
        }
    }
    let e = escape_parts(t);
    let q = escaped.len() as int;
    if k >= t.len() {
        assert(e == escaped);
        lemma_dot_index(e, q);
        assert(e.take(q) =~= escaped);
    } else {
        let rest = escape_parts(t.skip(k + 1));
        lemma_escape_parts_not_reserved(t.skip(k + 1));
        assert(e == escaped + seq!['.'] + rest);
        assert(e[q] == '.');
        assert forall|m: int| 0 <= m < q implies e[m] != '.' by {
            assert(e[m] == escaped[m]);
        }
        lemma_dot_index(e, q);
        assert(e.take(q) =~= escaped);
        assert(e.skip(q + 1) =~= rest);
    }
}

/// Law: no `.`-separated part of the stem of a glyph's file name (the name without its
/// `.glyph` extension) is a name that files cannot have on Windows, whatever the glyph's
/// name.
pub proof fn law_glyph_stem_not_reserved(name: Seq<char>)
    ensures
        spec_glyph_filename(name) == escape_parts(mark_capitals(undot(name))) + ".glyph"@,
        no_reserved_part(escape_parts(mark_capitals(undot(name)))),
{
    lemma_escape_parts_not_reserved(mark_capitals(undot(name)));
}

proof fn lemma_mark_capitals_first(t: Seq<char>)
    requires
        t.len() > 0,
    ensures
        mark_capitals(t).len() > 0,
        mark_capitals(t)[0] == t[0],
    decreases t.len(),
{
    if t.len() > 1 {
        lemma_mark_capitals_first(t.drop_last());
    } else {
        assert(t.drop_last() =~= Seq::<char>::empty());
        assert(mark_capitals(t.drop_last()) == Seq::<char>::empty());
    }
}

/// Law: the file of a glyph whose name is not empty is not hidden: its name does not start
/// with `.`.
pub proof fn law_glyph_file_not_hidden(name: Seq<char>)
    requires
        name.len() > 0,
    ensures
        spec_glyph_filename(name)[0] != '.',
{
    let u = undot(name);
    assert(u.len() > 0 && u[0] != '.');
    lemma_mark_capitals_first(u);
    let m = mark_capitals(u);
    lemma_no_dot_before(m);
    lemma_dot_index_bounds(m.drop_first());
    assert(dot_index(m) >= 1);
    let k = dot_index(m);
    let part = m.take(k);
    assert(part[0] == m[0]);
    let e = escape_parts(m);
    assert(e[0] != '.') by {
        if is_reserved(part) {
            assert((seq!['_'] + part)[0] == '_');
        }
    }
    assert((e + ".glyph"@)[0] == e[0]);
}

/// The ASCII lower case of a character; other characters are unchanged.
pub open spec fn ascii_lower(c: char) -> char {
    if 'A' <= c && c <= 'Z' {
        ((c as u32) + 32) as char
    } else {
        c
    }
}

/// `t` in ASCII lower case, as a file system that ignores case compares names.
pub open spec fn lower(t: Seq<char>) -> Seq<char> {
    t.map_values(|c: char| ascii_lower(c))
}

/// A part with `_` in front when it is a reserved name.
pub open spec fn escape_part(part: Seq<char>) -> Seq<char> {
    if is_reserved(part) {
        seq!['_'] + part
    } else {
        part
    }
}

proof fn lemma_lower_concat(a: Seq<char>, b: Seq<char>)
    ensures
        lower(a + b) == lower(a) + lower(b),
{
    assert(lower(a + b) =~= lower(a) + lower(b));
}

proof fn lemma_mark_concat(a: Seq<char>, b: Seq<char>)
    ensures
        mark_capitals(a + b) == mark_capitals(a) + mark_capitals(b),
    decreases b.len(),
{
    if b.len() == 0 {
        assert(a + b =~= a);
        assert(mark_capitals(a) + Seq::<char>::empty() =~= mark_capitals(a));
    } else {
        lemma_mark_concat(a, b.drop_last());
        assert((a + b).drop_last() =~= a + b.drop_last());
        assert((a + b).last() == b.last());
    }
}

proof fn lemma_mark_no_dot(t: Seq<char>)
    requires
        forall|m: int| 0 <= m < t.len() ==> #[trigger] t[m] != '.',
    ensures
        forall|m: int| 0 <= m < mark_capitals(t).len() ==> #[trigger] mark_capitals(t)[m] != '.',
    decreases t.len(),
{
    if t.len() > 0 {
        let f = t.drop_last();
        assert forall|m: int| 0 <= m < f.len() implies #[trigger] f[m] != '.' by {
            assert(f[m] == t[m]);
        }
        lemma_mark_no_dot(f);
        let x = t.last();
        assert(t[t.len() - 1] != '.');
        let tl = if is_capital(x) { seq![x, '_'] } else { seq![x] };
        let mf = mark_capitals(f);
        assert(mark_capitals(t) == mf + tl);
        assert forall|m: int| 0 <= m < mark_capitals(t).len() implies #[trigger] mark_capitals(t)[m]
            != '.' by {
            if m < mf.len() {
                assert(mark_capitals(t)[m] == mf[m]);
            } else {
                assert(mark_capitals(t)[m] == tl[m - mf.len()]);
            }
        }
    }
}

/// The stem of a file name is made part by part: each escaped part, marked, then a dot and
/// the stem of the rest.
proof fn lemma_escape_mark(u: Seq<char>)
    ensures
        ({
            let k = dot_index(u);
            let e = escape_part(mark_capitals(u.take(k)));
            &&& k < u.len() ==> escape_parts(mark_capitals(u)) == e + seq!['.'] + escape_parts(
                mark_capitals(u.skip(k + 1)),
            )
            &&& k >= u.len() ==> escape_parts(mark_capitals(u)) == e
            &&& forall|m: int| 0 <= m < e.len() ==> #[trigger] e[m] != '.'
        }),
{
    let k = dot_index(u);
    lemma_no_dot_before(u);
    let p = u.take(k);
    assert forall|m: int| 0 <= m < p.len() implies #[trigger] p[m] != '.' by {}
    lemma_mark_no_dot(p);
    let mp = mark_capitals(p);
    let e = escape_part(mp);
    assert forall|m: int| 0 <= m < e.len() implies #[trigger] e[m] != '.' by {
        if is_reserved(mp) && m > 0 {
            assert(e[m] == mp[m - 1]);
        }
    }
    let q = mp.len() as int;
    if k < u.len() {
        let rest = u.skip(k + 1);
        assert(u =~= p + seq!['.'] + rest);
        lemma_mark_concat(p + seq!['.'], rest);
        lemma_mark_concat(p, seq!['.']);
        assert(seq!['.'].drop_last() =~= Seq::<char>::empty());
        assert(mark_capitals(Seq::<char>::empty()) == Seq::<char>::empty());
        assert(seq!['.'].last() == '.');
        assert(mark_capitals(seq!['.']) == mark_capitals(seq!['.'].drop_last()) + seq!['.']);
        assert(mark_capitals(seq!['.']) =~= seq!['.']);
        let m = mark_capitals(u);
        assert(m == mp + seq!['.'] + mark_capitals(rest));
        assert(m[q] == '.');
        assert forall|x: int| 0 <= x < q implies m[x] != '.' by {
            assert(m[x] == mp[x]);
        }
        lemma_dot_index(m, q);
        assert(m.take(q) =~= mp);
        assert(m.skip(q + 1) =~= mark_capitals(rest));
    } else {
        assert(p =~= u);
        lemma_dot_index(mp, q);
        assert(mp.take(q) =~= mp);
    }
}

/// Marking capitals keeps names apart, given their lower case: the marked names, in lower
/// case, tell which letters were capitals.
proof fn lemma_mark_apart(a: Seq<char>, b: Seq<char>)
    requires
        lower(a) == lower(b),
        lower(mark_capitals(a)) == lower(mark_capitals(b)),
    ensures
        a == b,
    decreases a.len(),
{
    assert(a.len() == lower(a).len());
    assert(b.len() == lower(b).len());
    if a.len() > 0 {
        let x = a.last();
        let y = b.last();
        let fa = a.drop_last();
        let fb = b.drop_last();
        assert(lower(a)[a.len() - 1] == lower(b)[b.len() - 1]);
        assert(ascii_lower(x) == ascii_lower(y));
        assert(lower(fa) =~= lower(a).drop_last());
        assert(lower(fb) =~= lower(b).drop_last());
        let ta = if is_capital(x) { seq![x, '_'] } else { seq![x] };
        let tb = if is_capital(y) { seq![y, '_'] } else { seq![y] };
        assert(mark_capitals(a) == mark_capitals(fa) + ta);
        assert(mark_capitals(b) == mark_capitals(fb) + tb);
        lemma_lower_concat(mark_capitals(fa), ta);
        lemma_lower_concat(mark_capitals(fb), tb);
        let la = lower(mark_capitals(a));
        if is_capital(x) == is_capital(y) {
            let n = ta.len() as int;
            assert(lower(ta).len() == n && lower(tb).len() == n);
            assert(lower(mark_capitals(fa)) =~= la.take(la.len() - n));
            assert(lower(mark_capitals(fb)) =~= la.take(la.len() - n));
            lemma_mark_apart(fa, fb);
            assert(x == y);
            assert(a =~= fa.push(x));
            assert(b =~= fb.push(y));
        } else if is_capital(x) {
            assert(la.last() == '_');
            assert(la.last() == ascii_lower(y));
        } else {
            assert(la.last() == ascii_lower(x));
            assert(lower(mark_capitals(b)).last() == '_');
        }
    }
}

/// One part: escaped and marked, in lower case, it tells the part, given its lower case.
proof fn lemma_part_apart(p1: Seq<char>, p2: Seq<char>)
    requires
        lower(p1) == lower(p2),
        lower(escape_part(mark_capitals(p1))) == lower(escape_part(mark_capitals(p2))),
    ensures
        p1 == p2,
{
    let m1 = mark_capitals(p1);
    let m2 = mark_capitals(p2);
    lemma_reserved_names_start();
    if is_reserved(m1) == is_reserved(m2) {
        if is_reserved(m1) {
            lemma_lower_concat(seq!['_'], m1);
            lemma_lower_concat(seq!['_'], m2);
            let l = lower(escape_part(m1));
            assert(lower(m1) =~= l.skip(1));
            assert(lower(m2) =~= l.skip(1));
        }
        lemma_mark_apart(p1, p2);
    } else {
        lemma_part_reserved_start(p1);
        lemma_part_reserved_start(p2);
        assert(p1.len() == lower(p1).len() && p2.len() == lower(p2).len());
        if is_reserved(m1) {
            assert(lower(p1)[0] == ascii_lower(p1[0]));
            assert(lower(p2)[0] == ascii_lower(p2[0]));
            lemma_mark_capitals_first(p2);
            lemma_lower_concat(seq!['_'], m1);
            assert(lower(escape_part(m1))[0] == '_');
            assert(lower(m2)[0] == ascii_lower(m2[0]));
        } else {
            assert(lower(p1)[0] == ascii_lower(p1[0]));
            assert(lower(p2)[0] == ascii_lower(p2[0]));
            lemma_mark_capitals_first(p1);
            lemma_lower_concat(seq!['_'], m2);
            assert(lower(escape_part(m2))[0] == '_');
            assert(lower(m1)[0] == ascii_lower(m1[0]));
        }
    }
}

/// A marked part that is a reserved name starts with the letter that the part starts with.
proof fn lemma_part_reserved_start(p: Seq<char>)
    ensures
        is_reserved(mark_capitals(p)) ==> p.len() > 0 && mark_capitals(p)[0] == p[0] && (('a'
            <= p[0] && p[0] <= 'z') || ('A' <= p[0] && p[0] <= 'Z')),
{
    lemma_reserved_names_start();
    if is_reserved(mark_capitals(p)) {
        let m = mark_capitals(p);
        let k = choose|k: int|
            0 <= k < reserved_names().len() && #[trigger] reserved_names()[k] == m.map_values(
                |c: char| ascii_upper(c),
            );
        assert(reserved_names()[k].len() > 0);
        if p.len() == 0 {
            assert(m.len() == 0);
        }
        lemma_mark_capitals_first(p);
        assert(m.map_values(|c: char| ascii_upper(c))[0] == ascii_upper(m[0]));
    }
}

/// Stems of names with the same lower case: the same lower-case stems come from the same
/// names.
proof fn lemma_stem_apart(u1: Seq<char>, u2: Seq<char>)
    requires
        lower(u1) == lower(u2),
        lower(escape_parts(mark_capitals(u1))) == lower(escape_parts(mark_capitals(u2))),
    ensures
        u1 == u2,
    decreases u1.len(),
{
    assert(u1.len() == lower(u1).len() && u2.len() == lower(u2).len());
    lemma_dot_lower(u1, u2);
    let k = dot_index(u1);
    lemma_no_dot_before(u1);
    lemma_no_dot_before(u2);
    lemma_escape_mark(u1);
    lemma_escape_mark(u2);
    let p1 = u1.take(k);
    let p2 = u2.take(k);
    assert(lower(p1) =~= lower(u1).take(k));
    assert(lower(p2) =~= lower(u2).take(k));
    let e1 = escape_part(mark_capitals(p1));
    let e2 = escape_part(mark_capitals(p2));
    let l1 = lower(escape_parts(mark_capitals(u1)));
    assert(forall|m: int| 0 <= m < lower(e1).len() ==> #[trigger] lower(e1)[m] == ascii_lower(e1[m]));
    assert(forall|m: int| 0 <= m < lower(e2).len() ==> #[trigger] lower(e2)[m] == ascii_lower(e2[m]));
    if k < u1.len() {
        let r1 = escape_parts(mark_capitals(u1.skip(k + 1)));
        let r2 = escape_parts(mark_capitals(u2.skip(k + 1)));
        lemma_lower_concat(e1 + seq!['.'], r1);
        lemma_lower_concat(e1, seq!['.']);
        lemma_lower_concat(e2 + seq!['.'], r2);
        lemma_lower_concat(e2, seq!['.']);
        assert(lower(seq!['.']) =~= seq!['.']);
        assert(l1 == lower(e1) + seq!['.'] + lower(r1));
        assert(l1 == lower(e2) + seq!['.'] + lower(r2));
        let q1 = lower(e1).len() as int;
        let q2 = lower(e2).len() as int;
        assert forall|m: int| 0 <= m < q1 implies l1[m] != '.' by {
            assert(l1[m] == lower(e1)[m]);
        }
        assert forall|m: int| 0 <= m < q2 implies l1[m] != '.' by {
            assert(l1[m] == lower(e2)[m]);
        }
        lemma_dot_index(l1, q1);
        lemma_dot_index(l1, q2);
        assert(lower(e1) =~= l1.take(q1));
        assert(lower(e2) =~= l1.take(q2));
        assert(lower(r1) =~= l1.skip(q1 + 1));
        assert(lower(r2) =~= l1.skip(q2 + 1));
        lemma_part_apart(p1, p2);
        assert(lower(u1.skip(k + 1)) =~= lower(u1).skip(k + 1));
        assert(lower(u2.skip(k + 1)) =~= lower(u2).skip(k + 1));
        lemma_stem_apart(u1.skip(k + 1), u2.skip(k + 1));
        assert(u1 =~= p1 + seq!['.'] + u1.skip(k + 1));
        assert(u2 =~= p2 + seq!['.'] + u2.skip(k + 1));
    } else {
        assert(p1 =~= u1);
        assert(p2 =~= u2);
        lemma_part_apart(p1, p2);
    }
}

/// Names with the same lower case have their dots in the same places.
proof fn lemma_dot_lower(u1: Seq<char>, u2: Seq<char>)
    requires
        lower(u1) == lower(u2),
    ensures
        dot_index(u1) == dot_index(u2),
        u1.len() == u2.len(),
        forall|m: int| 0 <= m < u1.len() ==> (#[trigger] u1[m] == '.') == (u2[m] == '.'),
{
    assert(u1.len() == lower(u1).len() && u2.len() == lower(u2).len());
    assert forall|m: int| 0 <= m < u1.len() implies (#[trigger] u1[m] == '.') == (u2[m] == '.') by {
        assert(lower(u1)[m] == ascii_lower(u1[m]));
        assert(lower(u2)[m] == ascii_lower(u2[m]));
    }
    lemma_no_dot_before(u1);
    let q = dot_index(u1);
    assert forall|m: int| 0 <= m < q implies u2[m] != '.' by {
        assert(u1[m] != '.');
    }
    if q < u1.len() {
        assert(u1[q] == '.');
    }
    lemma_dot_index(u2, q);
}

/// Law: glyph names that differ only in the case of their letters are given file names
/// that still differ when case is ignored, so that a file system that ignores case keeps
/// their files apart.
pub proof fn law_glyph_filename_case_apart(g1: Seq<char>, g2: Seq<char>)
    requires
        g1 != g2,
        lower(g1) == lower(g2),
    ensures
        lower(spec_glyph_filename(g1)) != lower(spec_glyph_filename(g2)),
{
    if lower(spec_glyph_filename(g1)) == lower(spec_glyph_filename(g2)) {
        let u1 = undot(g1);
        let u2 = undot(g2);
        let x1 = escape_parts(mark_capitals(u1));
        let x2 = escape_parts(mark_capitals(u2));
        reveal_strlit(".glyph");
        lemma_lower_concat(x1, ".glyph"@);
        lemma_lower_concat(x2, ".glyph"@);
        let l = lower(spec_glyph_filename(g1));
        assert(lower(x1) =~= l.take(l.len() - 6));
        assert(lower(x2) =~= l.take(l.len() - 6));
        assert(g1.len() == lower(g1).len() && g2.len() == lower(g2).len());
        lemma_dot_lower(g1, g2);
        if g1.len() > 0 && g1[0] == '.' {
            assert(u1 =~= seq!['_'] + g1.drop_first());
            assert(u2 =~= seq!['_'] + g2.drop_first());
        }
        assert(lower(u1) =~= lower(u2)) by {
            assert(u1.len() == g1.len() && u2.len() == g2.len());
            assert forall|m: int| 0 <= m < u1.len() implies lower(u1)[m] == lower(u2)[m] by {
                assert(lower(g1)[m] == lower(g2)[m]);
                assert(lower(g1)[m] == ascii_lower(g1[m]));
                assert(lower(g2)[m] == ascii_lower(g2[m]));
                if !(m == 0 && g1[0] == '.') {
                    assert(u1[m] == g1[m]);
                    assert(u2[m] == g2[m]);
                }
            }
        }
        lemma_stem_apart(u1, u2);
        if g1.len() > 0 && g1[0] == '.' {
            assert(g1 =~= seq!['.'] + u1.drop_first());
            assert(g2 =~= seq!['.'] + u2.drop_first());
        }
    }
}

/// The names of devices on Windows, which no file can have, in upper case: `CON`, `CLOCK$`,
/// `PRN`, `AUX`, `NUL`, `COM1` to `COM9` and `LPT1` to `LPT8`.
pub open spec fn windows_device_name(u: Seq<char>) -> bool {
    ||| u == seq!['C', 'O', 'N']
    ||| u == seq!['C', 'L', 'O', 'C', 'K', '$']
    ||| u == seq!['P', 'R', 'N']
    ||| u == seq!['A', 'U', 'X']
    ||| u == seq!['N', 'U', 'L']
    ||| (u.len() == 4 && u[0] == 'C' && u[1] == 'O' && u[2] == 'M' && '1' <= u[3] <= '9')
    ||| (u.len() == 4 && u[0] == 'L' && u[1] == 'P' && u[2] == 'T' && '1' <= u[3] <= '8')
}

/// Each reserved name is the name of a Windows device.
proof fn lemma_reserved_each(k: int)
    requires
        0 <= k < reserved_names().len(),
    ensures
        windows_device_name(reserved_names()[k]),
{
    let r = reserved_names();
    if k == 0 {
        reveal_strlit("CON");
        assert(r[0] =~= seq!['C', 'O', 'N']);
    } else if k == 1 {
        reveal_strlit("CLOCK$");
        assert(r[1] =~= seq!['C', 'L', 'O', 'C', 'K', '$']);
    } else if k == 2 {
        reveal_strlit("PRN");
        assert(r[2] =~= seq!['P', 'R', 'N']);
    } else if k == 3 {
        reveal_strlit("AUX");
        assert(r[3] =~= seq!['A', 'U', 'X']);
    } else if k == 4 {
        reveal_strlit("NUL");
        assert(r[4] =~= seq!['N', 'U', 'L']);
    } else if k == 5 {
        reveal_strlit("COM1");
        assert(r[5] =~= seq!['C', 'O', 'M', '1']);
    } else if k == 6 {
        reveal_strlit("COM2");
        assert(r[6] =~= seq!['C', 'O', 'M', '2']);
    } else if k == 7 {
        reveal_strlit("COM3");
        assert(r[7] =~= seq!['C', 'O', 'M', '3']);
    } else if k == 8 {
        reveal_strlit("COM4");
        assert(r[8] =~= seq!['C', 'O', 'M', '4']);
    } else if k == 9 {
        reveal_strlit("COM5");
        assert(r[9] =~= seq!['C', 'O', 'M', '5']);
    } else if k == 10 {
        reveal_strlit("COM6");
        assert(r[10] =~= seq!['C', 'O', 'M', '6']);
    } else if k == 11 {
        reveal_strlit("COM7");
        assert(r[11] =~= seq!['C', 'O', 'M', '7']);
    } else if k == 12 {
        reveal_strlit("COM8");
        assert(r[12] =~= seq!['C', 'O', 'M', '8']);
    } else if k == 13 {
        reveal_strlit("COM9");
        assert(r[13] =~= seq!['C', 'O', 'M', '9']);
    } else if k == 14 {
        reveal_strlit("LPT1");
        assert(r[14] =~= seq!['L', 'P', 'T', '1']);
    } else if k == 15 {
        reveal_strlit("LPT2");
        assert(r[15] =~= seq!['L', 'P', 'T', '2']);
    } else if k == 16 {
        reveal_strlit("LPT3");
        assert(r[16] =~= seq!['L', 'P', 'T', '3']);
    } else if k == 17 {
        reveal_strlit("LPT4");
        assert(r[17] =~= seq!['L', 'P', 'T', '4']);
    } else if k == 18 {
        reveal_strlit("LPT5");
        assert(r[18] =~= seq!['L', 'P', 'T', '5']);
    } else if k == 19 {
        reveal_strlit("LPT6");
        assert(r[19] =~= seq!['L', 'P', 'T', '6']);
    } else if k == 20 {
        reveal_strlit("LPT7");
        assert(r[20] =~= seq!['L', 'P', 'T', '7']);
    } else if k == 21 {
        reveal_strlit("LPT8");
        assert(r[21] =~= seq!['L', 'P', 'T', '8']);
    }
}

/// Law: a part counts as reserved exactly when, in ASCII upper case, it is the name of a
/// Windows device.
pub proof fn law_reserved_names_exact(part: Seq<char>)
    ensures
        is_reserved(part) == windows_device_name(part.map_values(|c: char| ascii_upper(c))),
{
    reveal_strlit("CON");
    reveal_strlit("CLOCK$");
    reveal_strlit("PRN");
    reveal_strlit("AUX");
    reveal_strlit("NUL");
    reveal_strlit("COM1");
    reveal_strlit("COM2");
    reveal_strlit("COM3");
    reveal_strlit("COM4");
    reveal_strlit("COM5");
    reveal_strlit("COM6");
    reveal_strlit("COM7");
    reveal_strlit("COM8");
    reveal_strlit("COM9");
    reveal_strlit("LPT1");
    reveal_strlit("LPT2");
    reveal_strlit("LPT3");
    reveal_strlit("LPT4");
    reveal_strlit("LPT5");
    reveal_strlit("LPT6");
    reveal_strlit("LPT7");
    reveal_strlit("LPT8");
    let up = part.map_values(|c: char| ascii_upper(c));
    let r = reserved_names();
    if is_reserved(part) {
        let k = choose|k: int| 0 <= k < r.len() && #[trigger] r[k] == up;
        lemma_reserved_each(k);
    }
    if windows_device_name(up) {
        if up == seq!['C', 'O', 'N'] {
            assert(r[0] =~= up);
        } else if up == seq!['C', 'L', 'O', 'C', 'K', '$'] {
            assert(r[1] =~= up);
        } else if up == seq!['P', 'R', 'N'] {
            assert(r[2] =~= up);
        } else if up == seq!['A', 'U', 'X'] {
            assert(r[3] =~= up);
        } else if up == seq!['N', 'U', 'L'] {
            assert(r[4] =~= up);
        } else if up[0] == 'C' {
            let k = (up[3] as int) - ('1' as int) + 5;
            assert(r[k] =~= up);
        } else {
            let k = (up[3] as int) - ('1' as int) + 14;
            assert(r[k] =~= up);
        }
    }
}

proof fn lemma_mark_no_capitals(t: Seq<char>)
    requires
        forall|k: int| 0 <= k < t.len() ==> !is_capital(#[trigger] t[k]),
    ensures
        mark_capitals(t) == t,
    decreases t.len(),
{
    if t.len() > 0 {
        let f = t.drop_last();
        assert forall|k: int| 0 <= k < f.len() implies !is_capital(#[trigger] f[k]) by {
            assert(f[k] == t[k]);
        }
        lemma_mark_no_capitals(f);
        assert(!is_capital(t[t.len() - 1]));
        assert(f.push(t.last()) =~= t);
    }
}

/// Law: a glyph whose name is the name of a Windows device, written without capitals (and
/// without dots), gets a file whose name is its own with `_` in front: `prn` gives
/// `_prn.glyph`. (With capitals the name is not one of them once they are marked: `PRN`
/// gives `P_R_N_.glyph`.)
pub proof fn law_device_names_escaped(name: Seq<char>)
    requires
        forall|k: int| 0 <= k < name.len() ==> #[trigger] name[k] != '.' && !is_capital(name[k]),
        windows_device_name(name.map_values(|c: char| ascii_upper(c))),
    ensures
        spec_glyph_filename(name) == seq!['_'] + name + ".glyph"@,
{
    law_reserved_names_exact(name);
    assert(name.len() > 0) by {
        if name.len() == 0 {
            assert(name.map_values(|c: char| ascii_upper(c)).len() == 0);
        }
    }
    assert(undot(name) == name);
    lemma_mark_no_capitals(name);
    lemma_dot_index(name, name.len() as int);
    assert(name.take(name.len() as int) =~= name);
}

} // verus!

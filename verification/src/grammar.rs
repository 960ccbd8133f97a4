//! The property-list grammar as a mathematical parser over the characters of the input.
//!
//! Every function here takes the whole input `s` and a position `i`, and tells what the
//! grammar accepts at `i`: the value it denotes and the position right after it.
use vstd::prelude::*;

verus! {

/// Space that may stand between tokens.
pub open spec fn is_space(c: char) -> bool {
    c == ' ' || c == '\t' || c == '\n' || c == '\r'
}

/// Characters that may form an unquoted string.
pub open spec fn is_bare(c: char) -> bool {
    ('a' <= c && c <= 'z') || ('A' <= c && c <= 'Z') || ('0' <= c && c <= '9') || c == '_'
        || c == '.' || c == '-' || c == '$' || c == '/' || c == ':' || c == '+'
}

/// Characters that end a line comment.
pub open spec fn is_line_break(c: char) -> bool {
    c == '\n' || c == '\r'
}

/// The position of the first line break at or after `i` (or the end of the input).
pub open spec fn line_end(s: Seq<char>, i: int) -> int
    decreases s.len() - i,
{
    if i >= s.len() {
        i
    } else if is_line_break(s[i]) {
        i
    } else {
        line_end(s, i + 1)
    }
}

/// The position right after the first `*/` at or after `i`, if there is one.
pub open spec fn block_end(s: Seq<char>, i: int) -> Option<int>
    decreases s.len() - i,
{
    if i + 1 >= s.len() {
        None
    } else if s[i] == '*' && s[i + 1] == '/' {
        Some(i + 2)
    } else {
        block_end(s, i + 1)
    }
}

/// Whether a comment of the given opening kind (`//` or `/*`) starts at `i`.
pub open spec fn starts_with2(s: Seq<char>, i: int, a: char, b: char) -> bool {
    0 <= i && i + 1 < s.len() && s[i] == a && s[i + 1] == b
}

pub proof fn lemma_line_end(s: Seq<char>, i: int)
    ensures
        line_end(s, i) >= i,
        i <= s.len() ==> line_end(s, i) <= s.len(),
    decreases s.len() - i,
{
    if i < s.len() && !is_line_break(s[i]) {
        lemma_line_end(s, i + 1);
    }
}

pub proof fn lemma_block_end(s: Seq<char>, i: int)
    ensures
        block_end(s, i) matches Some(j) ==> i + 2 <= j <= s.len(),
    decreases s.len() - i,
{
    if i + 1 < s.len() && !(s[i] == '*' && s[i + 1] == '/') {
        lemma_block_end(s, i + 1);
    }
}

/// The position of the first token at or after `i`: spaces, line comments and closed
/// block comments are passed over.
pub open spec fn skip_space(s: Seq<char>, i: int) -> int
    decreases s.len() - i,
{
    if i < 0 || i >= s.len() {
        i
    } else if is_space(s[i]) {
        skip_space(s, i + 1)
    } else if starts_with2(s, i, '/', '/') {
        proof {
            lemma_line_end(s, i + 2);
        }
        skip_space(s, line_end(s, i + 2))
    } else if starts_with2(s, i, '/', '*') {
        proof {
            lemma_block_end(s, i + 2);
        }
        match block_end(s, i + 2) {
            Some(j) => skip_space(s, j),
            None => i,
        }
    } else {
        i
    }
}

pub proof fn lemma_skip_space(s: Seq<char>, i: int)
    requires
        0 <= i <= s.len(),
    ensures
        i <= skip_space(s, i) <= s.len(),
    decreases s.len() - i,
{
    if i < s.len() {
        if is_space(s[i]) {
            lemma_skip_space(s, i + 1);
        } else if starts_with2(s, i, '/', '/') {
            lemma_line_end(s, i + 2);
            lemma_skip_space(s, line_end(s, i + 2));
        } else if starts_with2(s, i, '/', '*') {
            lemma_block_end(s, i + 2);
            if let Some(j) = block_end(s, i + 2) {
                lemma_skip_space(s, j);
            }
        }
    }
}

/// The position of the closing quote of a quoted string whose contents start at `j`.
/// A backslash takes the character after it into the contents, whatever it is.
pub open spec fn quote_end(s: Seq<char>, j: int) -> Option<int>
    decreases s.len() - j,
{
    if j < 0 || j >= s.len() {
        None
    } else if s[j] == '"' {
        Some(j)
    } else if s[j] == '\\' && j + 1 < s.len() {
        quote_end(s, j + 2)
    } else {
        quote_end(s, j + 1)
    }
}

pub proof fn lemma_quote_end(s: Seq<char>, j: int)
    ensures
        quote_end(s, j) matches Some(k) ==> j <= k < s.len() && s[k] == '"',
    decreases s.len() - j,
{
    if 0 <= j < s.len() && s[j] != '"' {
        if s[j] == '\\' && j + 1 < s.len() {
            lemma_quote_end(s, j + 2);
        } else {
            lemma_quote_end(s, j + 1);
        }
    }
}

/// The end of the run of unquoted-string characters that starts at `i`.
pub open spec fn bare_end(s: Seq<char>, i: int) -> int
    decreases s.len() - i,
{
    if i < 0 || i >= s.len() || !is_bare(s[i]) {
        i
    } else {
        bare_end(s, i + 1)
    }
}

pub proof fn lemma_bare_end(s: Seq<char>, i: int)
    requires
        0 <= i <= s.len(),
    ensures
        i <= bare_end(s, i) <= s.len(),
        forall|k: int| i <= k < bare_end(s, i) ==> is_bare(#[trigger] s[k]),
        bare_end(s, i) < s.len() ==> !is_bare(s[bare_end(s, i)]),
    decreases s.len() - i,
{
    if i < s.len() && is_bare(s[i]) {
        lemma_bare_end(s, i + 1);
    }
}

/// The character that the escape `\0` followed by `d1` and `d2` stands for: each of the
/// two is taken by the low byte of its code, less the code of `0`, in bytes that wrap.
pub open spec fn octal_char(d1: char, d2: char) -> char {
    let b1 = ((d1 as u32) % 256 + 208) % 256;
    let b2 = ((d2 as u32) % 256 + 208) % 256;
    ((b1 * 8 + b2) % 256) as char
}

/// What a backslash followed by `e` stands for, other than the `\0` escape.
pub open spec fn escape_text(e: char) -> Seq<char> {
    if e == '"' {
        seq!['"']
    } else if e == '/' {
        seq!['/']
    } else if e == 'n' {
        seq!['\n']
    } else if e == 'r' {
        seq!['\r']
    } else if e == 't' {
        seq!['\t']
    } else if e == 'b' {
        seq!['\u{08}']
    } else if e == 'f' {
        seq!['\u{0C}']
    } else if e == '\\' {
        seq!['\\']
    } else {
        seq!['\\', e]
    }
}

/// The text that the contents `t` of a quoted string stand for, escapes resolved.
pub open spec fn unescape(t: Seq<char>) -> Seq<char>
    decreases t.len(),
{
    if t.len() == 0 {
        seq![]
    } else if t[0] != '\\' {
        seq![t[0]] + unescape(t.drop_first())
    } else if t.len() == 1 {
        seq!['\\']
    } else if t[1] == '0' {
        let d1 = if t.len() > 2 { t[2] } else { '0' };
        let d2 = if t.len() > 3 { t[3] } else { '0' };
        let used = if t.len() >= 4 { 4 } else { t.len() as int };
        seq![octal_char(d1, d2)] + unescape(t.skip(used))
    } else {
        escape_text(t[1]) + unescape(t.skip(2))
    }
}

/// Text without a backslash stands for itself.
pub proof fn lemma_unescape_plain(t: Seq<char>)
    requires
        forall|k: int| 0 <= k < t.len() ==> t[k] != '\\',
    ensures
        unescape(t) == t,
    decreases t.len(),
{
    if t.len() > 0 {
        lemma_unescape_plain(t.drop_first());
        assert(seq![t[0]] + t.drop_first() =~= t);
    }
}

/// A parsed value: what it is, and the text that it was parsed from.
pub struct SpecSlice {
    pub value: SpecValue,
    pub code: Seq<char>,
}

/// A parsed dictionary entry: its key, its value, and the text of the whole entry
/// (`key = value;`).
pub struct SpecEntry {
    pub key: Seq<char>,
    pub value: SpecSlice,
    pub code: Seq<char>,
}

pub enum SpecValue {
    Dict(Seq<SpecEntry>),
    Array(Seq<SpecSlice>),
    String(Seq<char>),
}

/// A string at `i`: quoted (escapes resolved) or unquoted. Its code is the whole token,
/// quotes included.
pub open spec fn parse_string(s: Seq<char>, i: int) -> Option<(SpecSlice, int)> {
    if i < 0 || i >= s.len() {
        None
    } else if s[i] == '"' {
        match quote_end(s, i + 1) {
            Some(j) => Some(
                (
                    SpecSlice {
                        value: SpecValue::String(unescape(s.subrange(i + 1, j))),
                        code: s.subrange(i, j + 1),
                    },
                    j + 1,
                ),
            ),
            None => None,
        }
    } else if is_bare(s[i]) {
        let j = bare_end(s, i);
        Some((SpecSlice { value: SpecValue::String(s.subrange(i, j)), code: s.subrange(i, j) }, j))
    } else {
        None
    }
}

/// A value at `i`: a dictionary, an array or a string, told apart by the first character.
pub open spec fn parse_value(s: Seq<char>, i: int) -> Option<(SpecSlice, int)>
    decreases s.len() - i, 3int,
{
    if i < 0 || i >= s.len() {
        None
    } else if s[i] == '{' {
        parse_dict(s, i)
    } else if s[i] == '(' {
        parse_array(s, i)
    } else {
        parse_string(s, i)
    }
}

/// A dictionary at `i`: `{`, entries, `}`. Its code runs from the start of the first
/// entry to the end of the last one (empty when there is no entry).
pub open spec fn parse_dict(s: Seq<char>, i: int) -> Option<(SpecSlice, int)>
    decreases s.len() - i, 2int,
{
    if i < 0 || i >= s.len() || s[i] != '{' {
        None
    } else {
        match parse_entries(s, i + 1) {
            Some((es, last, close)) => Some(
                (
                    SpecSlice {
                        value: SpecValue::Dict(es),
                        code: if es.len() == 0 {
                            seq![]
                        } else {
                            s.subrange(skip_space(s, i + 1), last)
                        },
                    },
                    close,
                ),
            ),
            None => None,
        }
    }
}

/// The entries of a dictionary from `j` on, up to and including the closing `}`: the
/// entries, the end of the last entry, and the position after the `}`.
pub open spec fn parse_entries(s: Seq<char>, j: int) -> Option<(Seq<SpecEntry>, int, int)>
    decreases s.len() - j, 1int,
{
    if j < 0 || j > s.len() {
        None
    } else {
        let k = skip_space(s, j);
        if 0 <= k < s.len() && s[k] == '}' {
            Some((seq![], k, k + 1))
        } else if k < j || k > s.len() {
            None
        } else {
            match parse_entry(s, k) {
                Some((e, m)) => if k < m <= s.len() {
                    match parse_entries(s, m) {
                        Some((es, last, close)) => Some(
                            (seq![e] + es, if es.len() == 0 { m } else { last }, close),
                        ),
                        None => None,
                    }
                } else {
                    None
                },
                None => None,
            }
        }
    }
}

/// One entry at `k`: a string key, `=`, a value, `;`.
pub open spec fn parse_entry(s: Seq<char>, k: int) -> Option<(SpecEntry, int)>
    decreases s.len() - k, 0int,
{
    match parse_string(s, k) {
        Some((key, after_key)) => {
            let eq = skip_space(s, after_key);
            if after_key > k && eq >= after_key && 0 <= eq < s.len() && s[eq] == '=' {
                let v = skip_space(s, eq + 1);
                if k < v <= s.len() {
                    match parse_value(s, v) {
                        Some((value, after_value)) => {
                            let semi = skip_space(s, after_value);
                            if 0 <= semi < s.len() && s[semi] == ';' && semi >= after_value
                                && after_value > v {
                                match key.value {
                                    SpecValue::String(name) => Some(
                                        (
                                            SpecEntry {
                                                key: name,
                                                value,
                                                code: s.subrange(k, semi + 1),
                                            },
                                            semi + 1,
                                        ),
                                    ),
                                    _ => None,
                                }
                            } else {
                                None
                            }
                        },
                        None => None,
                    }
                } else {
                    None
                }
            } else {
                None
            }
        },
        None => None,
    }
}

/// An array at `i`: `(`, values separated by `,` (one more `,` may close the list), `)`.
/// Its code runs from the start of the first value to the end of the last one.
pub open spec fn parse_array(s: Seq<char>, i: int) -> Option<(SpecSlice, int)>
    decreases s.len() - i, 2int,
{
    if i < 0 || i >= s.len() || s[i] != '(' {
        None
    } else {
        let j = skip_space(s, i + 1);
        if 0 <= j < s.len() && s[j] == ')' {
            Some((SpecSlice { value: SpecValue::Array(seq![]), code: seq![] }, j + 1))
        } else if j <= i || j > s.len() {
            None
        } else {
            match parse_value(s, j) {
                Some((first, e)) => if j < e <= s.len() {
                    match parse_items(s, e) {
                        Some((rest, last, close)) => Some(
                            (
                                SpecSlice {
                                    value: SpecValue::Array(seq![first] + rest),
                                    code: s.subrange(j, last),
                                },
                                close,
                            ),
                        ),
                        None => None,
                    }
                } else {
                    None
                },
                None => None,
            }
        }
    }
}

/// The values of an array after one that ends at `e`, up to and including the closing
/// `)`: the further values, the end of the last value, and the position after the `)`.
pub open spec fn parse_items(s: Seq<char>, e: int) -> Option<(Seq<SpecSlice>, int, int)>
    decreases s.len() - e, 1int,
{
    if e < 0 || e > s.len() {
        None
    } else {
        let k = skip_space(s, e);
        if k < e || k >= s.len() {
            None
        } else if s[k] == ')' {
            Some((seq![], e, k + 1))
        } else if s[k] == ',' {
            let k2 = skip_space(s, k + 1);
            if 0 <= k2 < s.len() && s[k2] == ')' {
                Some((seq![], e, k2 + 1))
            } else if k2 <= k || k2 > s.len() {
                None
            } else {
                match parse_value(s, k2) {
                    Some((v, e2)) => if k2 < e2 <= s.len() {
                        match parse_items(s, e2) {
                            Some((vs, last, close)) => Some((seq![v] + vs, last, close)),
                            None => None,
                        }
                    } else {
                        None
                    },
                    None => None,
                }
            }
        } else {
            None
        }
    }
}

/// Text without a backslash, in front of any text, stands for itself in front of what that
/// text stands for.
pub proof fn lemma_unescape_plain_prefix(t: Seq<char>, u: Seq<char>)
    requires
        forall|k: int| 0 <= k < t.len() ==> t[k] != '\\',
    ensures
        unescape(t + u) == t + unescape(u),
    decreases t.len(),
{
    if t.len() > 0 {
        lemma_unescape_plain_prefix(t.drop_first(), u);
        assert((t + u).drop_first() =~= t.drop_first() + u);
        assert((t + u)[0] == t[0]);
        assert(seq![t[0]] + (t.drop_first() + unescape(u)) =~= t + unescape(u));
    } else {
        assert(t + u =~= u);
        assert(t + unescape(u) =~= unescape(u));
    }
}

/// Law: the escape `\0` followed by two octal digits stands for the one character whose code
/// is the number they write in base 8, whatever follows the escape; in particular at the
/// very end of a quoted string's contents, after text without escapes.
pub proof fn law_octal_escape(t: Seq<char>, d1: char, d2: char, rest: Seq<char>)
    requires
        '0' <= d1 <= '7',
        '0' <= d2 <= '7',
        forall|k: int| 0 <= k < t.len() ==> t[k] != '\\',
    ensures
        ({
            let c = unescape(seq!['\\', '0', d1, d2] + rest)[0];
            &&& c as int == (d1 as int - '0' as int) * 8 + (d2 as int - '0' as int)
            &&& unescape(seq!['\\', '0', d1, d2] + rest) == seq![c] + unescape(rest)
        }),
        unescape(t + seq!['\\', '0', d1, d2]).len() == t.len() + 1,
        unescape(t + seq!['\\', '0', d1, d2]).take(t.len() as int) == t,
        unescape(t + seq!['\\', '0', d1, d2]).last() as int == (d1 as int - '0' as int) * 8 + (
        d2 as int - '0' as int),
{
    let e = seq!['\\', '0', d1, d2];
    let x = e + rest;
    assert(x[0] == '\\' && x[1] == '0' && x[2] == d1 && x[3] == d2);
    assert(x.skip(4) =~= rest);
    let v = ((d1 as u32) % 256 + 208) % 256 * 8 + ((d2 as u32) % 256 + 208) % 256;
    assert(((d1 as u32) % 256 + 208) % 256 == d1 as u32 - 48);
    assert(((d2 as u32) % 256 + 208) % 256 == d2 as u32 - 48);
    assert(octal_char(d1, d2) as int == (d1 as int - '0' as int) * 8 + (d2 as int - '0' as int));
    assert(unescape(x) == seq![octal_char(d1, d2)] + unescape(rest));
    lemma_unescape_plain_prefix(t, e);
    assert(e.skip(4) =~= Seq::<char>::empty());
    assert(unescape(e) == seq![octal_char(d1, d2)] + unescape(Seq::<char>::empty()));
    assert(unescape(Seq::<char>::empty()) == Seq::<char>::empty());
    assert(unescape(e) =~= seq![octal_char(d1, d2)]);
    assert((t + unescape(e)).take(t.len() as int) =~= t);
}

} // verus!

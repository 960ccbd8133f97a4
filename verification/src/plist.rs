//! Parsing of the property lists that Glyphs files are written in.
//!
//! A parsed value keeps, beside what it denotes, the exact text that it was parsed from,
//! so that parts of a file can be written out again unchanged.
use std::borrow::Cow;
use vstd::prelude::*;

use crate::grammar::{
    SpecEntry, SpecSlice, SpecValue, block_end, bare_end, is_bare, lemma_bare_end,
    lemma_block_end, lemma_line_end, lemma_quote_end, lemma_skip_space, lemma_unescape_plain,
    line_end, octal_char, escape_text, parse_array, parse_dict, parse_entries, parse_entry,
    parse_items, parse_string, parse_value, quote_end, skip_space, unescape,
};
use crate::framing::{lemma_frame_string, same};
use crate::text::{byte_offset, chars_and_offsets, push_char, push_str, substring};

verus! {

/// Which kind of value a whole file holds.
#[derive(Clone, Copy)]
pub enum Root {
    Dict,
    Array,
}

/// A parsed value together with the text it was parsed from.
#[derive(Debug)]
pub struct Slice<'a> {
    pub value: Value<'a>,
    pub code: &'a str,
}

/// A parsed value. A dictionary entry holds the key, the value, and the text of the whole
/// entry. A string borrows from the input unless escapes had to be resolved.
#[derive(Debug)]
pub enum Value<'a> {
    Dict(Vec<(Cow<'a, str>, Slice<'a>, &'a str)>),
    Array(Vec<Slice<'a>>),
    String(Cow<'a, str>),
}

/// The input of a parse was not a value of the requested kind.
#[derive(Debug)]
pub struct ParseError;

/// What a parsed value denotes.
pub open spec fn value_view<'a>(v: &Value<'a>) -> SpecValue
    decreases v,
{
    match v {
        Value::Dict(es) => SpecValue::Dict(
            Seq::new(
                es@.len(),
                |i: int|
                    if 0 <= i < es@.len() {
                        SpecEntry {
                            key: es@[i].0@,
                            value: SpecSlice {
                                value: value_view(&es@[i].1.value),
                                code: es@[i].1.code@,
                            },
                            code: es@[i].2@,
                        }
                    } else {
                        SpecEntry { key: seq![], value: SpecSlice { value: SpecValue::String(seq![]), code: seq![] }, code: seq![] }
                    },
            ),
        ),
        Value::Array(vs) => SpecValue::Array(
            Seq::new(
                vs@.len(),
                |i: int|
                    if 0 <= i < vs@.len() {
                        SpecSlice { value: value_view(&vs@[i].value), code: vs@[i].code@ }
                    } else {
                        SpecSlice { value: SpecValue::String(seq![]), code: seq![] }
                    },
            ),
        ),
        Value::String(t) => SpecValue::String(t@),
    }
}

impl<'a> View for Slice<'a> {
    type V = SpecSlice;

    open spec fn view(&self) -> SpecSlice {
        SpecSlice { value: value_view(&self.value), code: self.code@ }
    }
}

/// What a dictionary entry denotes.
pub open spec fn entry_view<'a>(e: &(Cow<'a, str>, Slice<'a>, &'a str)) -> SpecEntry {
    SpecEntry { key: e.0@, value: e.1@, code: e.2@ }
}

/// What a list of dictionary entries denotes.
pub open spec fn entries_view<'a>(es: Seq<(Cow<'a, str>, Slice<'a>, &'a str)>) -> Seq<SpecEntry> {
    Seq::new(es.len(), |i: int| entry_view(&es[i]))
}

/// What a list of values denotes.
pub open spec fn slices_view<'a>(vs: Seq<Slice<'a>>) -> Seq<SpecSlice> {
    Seq::new(vs.len(), |i: int| vs[i]@)
}

/// Whether a string borrows its text from the input.
pub open spec fn is_borrowed<'a>(c: &Cow<'a, str>) -> bool {
    match c {
        Cow::Borrowed(_) => true,
        Cow::Owned(_) => false,
    }
}

/// Text that holds no backslash.
pub open spec fn no_backslash(t: Seq<char>) -> bool {
    forall|k: int| 0 <= k < t.len() ==> t[k] != '\\'
}

/// The text of the key that an entry's text starts with.
pub open spec fn key_code(entry_code: Seq<char>) -> Seq<char> {
    (parse_string(entry_code, 0)->0).0.code
}

/// Every string of the value `v`, written as `code`, and every key of its dictionaries,
/// borrows its text from the input exactly when the text it was read from holds no
/// backslash: only strings with escapes are copied, to resolve them.
pub open spec fn borrows_exactly<'a>(v: &Value<'a>, code: Seq<char>) -> bool
    decreases v,
{
    match v {
        Value::String(t) => is_borrowed(t) == no_backslash(code),
        Value::Dict(es) => forall|i: int|
            0 <= i < es@.len() ==> {
                &&& is_borrowed(&(#[trigger] es@[i]).0) == no_backslash(key_code(es@[i].2@))
                &&& borrows_exactly(&es@[i].1.value, es@[i].1.code@)
            },
        Value::Array(vs) => forall|i: int|
            0 <= i < vs@.len() ==> borrows_exactly(&(#[trigger] vs@[i]).value, vs@[i].code@),
    }
}

/// The key at the start of an entry's text is read there as it was read in the input.
proof fn lemma_key_code(s: Seq<char>, k: int, ak: int, m: int)
    requires
        0 <= k < ak < m <= s.len(),
        parse_string(s, k) is Some,
        (parse_string(s, k)->0).1 == ak,
        (parse_string(s, k)->0).0.code == s.subrange(k, ak),
    ensures
        key_code(s.subrange(k, m)) == s.subrange(k, ak),
{
    let c = s.subrange(k, m);
    assert(same(s, c, k, ak, -k)) by {
        assert forall|x: int| k <= x < ak implies c[x + (-k)] == #[trigger] s[x] by {}
    }
    if s[k] != '"' {
        lemma_bare_end(s, k);
        assert(c[ak - k] == s[ak]);
    }
    lemma_frame_string(s, c, k, -k);
}

pub proof fn lemma_dict_view<'a>(es: Vec<(Cow<'a, str>, Slice<'a>, &'a str)>)
    ensures
        value_view(&Value::Dict(es)) == SpecValue::Dict(entries_view(es@)),
{
    let v = Value::Dict(es);
    let a = match value_view(&v) {
        SpecValue::Dict(a) => a,
        _ => seq![],
    };
    assert(a =~= entries_view(es@));
}

pub proof fn lemma_array_view<'a>(vs: Vec<Slice<'a>>)
    ensures
        value_view(&Value::Array(vs)) == SpecValue::Array(slices_view(vs@)),
{
    let v = Value::Array(vs);
    let a = match value_view(&v) {
        SpecValue::Array(a) => a,
        _ => seq![],
    };
    assert(a =~= slices_view(vs@));
}

/// What the grammar gives for a whole input of the given kind: the value that starts at
/// the first character. Text after that value is not looked at.
pub open spec fn parse_root(root: Root, s: Seq<char>) -> Option<SpecSlice> {
    let r = match root {
        Root::Dict => parse_dict(s, 0),
        Root::Array => parse_array(s, 0),
    };
    match r {
        Some((v, _)) => Some(v),
        None => None,
    }
}

/// Parses `code` as a value of the kind `root`.
pub fn parse<'a>(root: Root, code: &'a str) -> (r: Result<Slice<'a>, ParseError>)
    ensures
        match r {
            Ok(slice) => parse_root(root, code@) == Some(slice@) && borrows_exactly(
                &slice.value,
                slice.code@,
            ),
            Err(_) => parse_root(root, code@) is None,
        },
{
    let src = Source::new(code);
    let r = match root {
        Root::Dict => src.dict(0),
        Root::Array => src.array(0),
    };
    match r {
        Some((slice, _)) => Ok(slice),
        None => Err(ParseError),
    }
}

/// The text being parsed, with its characters and their byte offsets.
struct Source<'a> {
    text: &'a str,
    chars: Vec<char>,
    offs: Vec<usize>,
}

impl<'a> Source<'a> {
    spec fn wf(&self) -> bool {
        &&& self.chars@ == self.text@
        &&& self.chars@.len() <= usize::MAX
        &&& self.offs@.len() == self.text@.len() + 1
        &&& forall|k: int|
            0 <= k <= self.text@.len() ==> #[trigger] self.offs@[k] == byte_offset(
                self.text@,
                k,
            )
    }

    spec fn s(&self) -> Seq<char> {
        self.chars@
    }

    fn new(text: &'a str) -> (r: Source<'a>)
        ensures
            r.wf(),
            r.text == text,
    {
        let (chars, offs) = chars_and_offsets(text);
        let _ = chars.len();
        Source { text, chars, offs }
    }

    fn len(&self) -> (n: usize)
        ensures
            n == self.s().len(),
    {
        self.chars.len()
    }

    fn at(&self, i: usize) -> (c: char)
        requires
            i < self.s().len(),
        ensures
            c == self.s()[i as int],
    {
        self.chars[i]
    }

    /// Whether position `i` holds character `c`.
    fn is(&self, i: usize, c: char) -> (b: bool)
        ensures
            b == (i < self.s().len() && self.s()[i as int] == c),
    {
        i < self.chars.len() && self.chars[i] == c
    }

    fn code(&self, i: usize, j: usize) -> (r: &'a str)
        requires
            self.wf(),
            i <= j <= self.s().len(),
        ensures
            r@ == self.s().subrange(i as int, j as int),
    {
        substring(self.text, &self.offs, i, j)
    }

    fn line_end(&self, i: usize) -> (r: usize)
        requires
            i <= self.s().len(),
        ensures
            r == line_end(self.s(), i as int),
    {
        let mut j = i;
        while j < self.chars.len() && !(self.chars[j] == '\n' || self.chars[j] == '\r')
            invariant
                i <= j <= self.s().len(),
                line_end(self.s(), i as int) == line_end(self.s(), j as int),
            decreases self.s().len() - j,
        {
            j = j + 1;
        }
        j
    }

    fn block_end(&self, i: usize) -> (r: Option<usize>)
        requires
            i <= self.s().len(),
        ensures
            r matches Some(j) ==> block_end(self.s(), i as int) == Some(j as int),
            r is None ==> block_end(self.s(), i as int) is None,
    {
        let mut j = i;
        while j < self.chars.len() && self.chars.len() - j > 1
            invariant
                i <= j <= self.s().len(),
                block_end(self.s(), i as int) == block_end(self.s(), j as int),
            decreases self.s().len() - j,
        {
            if self.chars[j] == '*' && self.chars[j + 1] == '/' {
                return Some(j + 2);
            }
            j = j + 1;
        }
        None
    }

    fn skip_space(&self, i: usize) -> (r: usize)
        requires
            i <= self.s().len(),
        ensures
            r == skip_space(self.s(), i as int),
            i <= r <= self.s().len(),
    {
        let mut j = i;
        proof {
            lemma_skip_space(self.s(), i as int);
        }
        loop
            invariant
                i <= j <= self.s().len(),
                skip_space(self.s(), i as int) == skip_space(self.s(), j as int),
            decreases self.s().len() - j,
        {
            if j >= self.chars.len() {
                return j;
            }
            let c = self.chars[j];
            if c == ' ' || c == '\t' || c == '\n' || c == '\r' {
                j = j + 1;
            } else if c == '/' && j + 1 < self.chars.len() && self.chars[j + 1] == '/' {
                proof {
                    lemma_line_end(self.s(), j + 2);
                }
                j = self.line_end(j + 2);
            } else if c == '/' && j + 1 < self.chars.len() && self.chars[j + 1] == '*' {
                proof {
                    lemma_block_end(self.s(), j + 2);
                }
                match self.block_end(j + 2) {
                    Some(k) => {
                        j = k;
                    },
                    None => {
                        return j;
                    },
                }
            } else {
                return j;
            }
        }
    }

    /// The closing quote of a quoted string whose contents start at `i`, and whether the
    /// contents hold a backslash.
    fn quote_end(&self, i: usize) -> (r: Option<(usize, bool)>)
        requires
            i <= self.s().len(),
        ensures
            match r {
                Some((j, esc)) => {
                    &&& quote_end(self.s(), i as int) == Some(j as int)
                    &&& esc == exists|k: int| i <= k < j && self.s()[k] == '\\'
                },
                None => quote_end(self.s(), i as int) is None,
            },
    {
        let mut j = i;
        let mut esc = false;
        while j < self.chars.len()
            invariant
                i <= j <= self.s().len() + 1,
                quote_end(self.s(), i as int) == quote_end(self.s(), j as int),
                esc == exists|k: int| i <= k < j && k < self.s().len() && self.s()[k] == '\\',
                j == self.s().len() + 1 ==> quote_end(self.s(), j as int) is None,
            decreases self.s().len() + 1 - j,
        {
            let c = self.chars[j];
            if c == '"' {
                proof {
                    if esc {
                        let k = choose|k: int| i <= k < j && k < self.s().len() && self.s()[k] == '\\';
                        assert(i <= k < j && self.s()[k] == '\\');
                    }
                }
                return Some((j, esc));
            } else if c == '\\' && j + 1 < self.chars.len() {
                esc = true;
                proof {
                    assert(self.s()[j as int] == '\\');
                }
                j = j + 2;
            } else {
                if c == '\\' {
                    esc = true;
                }
                j = j + 1;
            }
        }
        None
    }

    /// The text that the contents between `a` and `b` of a quoted string stand for.
    fn unescape(&self, a: usize, b: usize) -> (r: String)
        requires
            a <= b <= self.s().len(),
        ensures
            r@ == unescape(self.s().subrange(a as int, b as int)),
    {
        let ghost t0 = self.s().subrange(a as int, b as int);
        let mut out = String::new();
        let mut p = a;
        while p < b
            invariant
                a <= p <= b <= self.s().len(),
                t0 == self.s().subrange(a as int, b as int),
                out@ + unescape(self.s().subrange(p as int, b as int)) == unescape(t0),
            decreases b - p,
        {
            let ghost t = self.s().subrange(p as int, b as int);
            let c = self.chars[p];
            if c != '\\' {
                push_char(&mut out, c);
                proof {
                    assert(t.drop_first() =~= self.s().subrange(p + 1, b as int));
                    assert(out@ + unescape(t.drop_first()) =~= (out@.drop_last() + (seq![c]
                        + unescape(t.drop_first()))));
                }
                p = p + 1;
            } else if p + 1 == b {
                push_char(&mut out, '\\');
                proof {
                    assert(self.s().subrange(p + 1, b as int) =~= Seq::<char>::empty());
                    assert(out@ + unescape(self.s().subrange(p + 1, b as int)) =~= out@);
                }
                p = p + 1;
            } else {
                let e = self.chars[p + 1];
                if e == '0' {
                    let d1 = if b - p > 2 { self.chars[p + 2] } else { '0' };
                    let d2 = if b - p > 3 { self.chars[p + 3] } else { '0' };
                    let used: usize = if b - p >= 4 { 4 } else { b - p };
                    let b1: u32 = ((d1 as u32) % 256 + 208) % 256;
                    let b2: u32 = ((d2 as u32) % 256 + 208) % 256;
                    let v: u32 = (b1 * 8 + b2) % 256;
                    let ch = (v as u8) as char;
                    proof {
                        assert(ch == octal_char(d1, d2));
                    }
                    push_char(&mut out, ch);
                    proof {
                        assert(t.skip(used as int) =~= self.s().subrange(p + used, b as int));
                        assert(out@ + unescape(t.skip(used as int)) =~= (out@.drop_last() + (
                        seq![ch] + unescape(t.skip(used as int)))));
                    }
                    p = p + used;
                } else {
                    let ghost before = out@;
                    if e == '"' {
                        push_char(&mut out, '"');
                    } else if e == '/' {
                        push_char(&mut out, '/');
                    } else if e == 'n' {
                        push_char(&mut out, '\n');
                    } else if e == 'r' {
                        push_char(&mut out, '\r');
                    } else if e == 't' {
                        push_char(&mut out, '\t');
                    } else if e == 'b' {
                        push_char(&mut out, '\u{08}');
                    } else if e == 'f' {
                        push_char(&mut out, '\u{0C}');
                    } else if e == '\\' {
                        push_char(&mut out, '\\');
                    } else {
                        push_char(&mut out, '\\');
                        push_char(&mut out, e);
                    }
                    proof {
                        assert(out@ =~= before + escape_text(e));
                        assert(t.skip(2) =~= self.s().subrange(p + 2, b as int));
                        assert(out@ + unescape(t.skip(2)) =~= before + (escape_text(e)
                            + unescape(t.skip(2))));
                    }
                    p = p + 2;
                }
            }
        }
        proof {
            assert(self.s().subrange(b as int, b as int) =~= Seq::<char>::empty());
            assert(out@ + Seq::<char>::empty() =~= out@);
        }
        out
    }

    /// A string at `i`: its text and the position after it.
    fn string(&self, i: usize) -> (r: Option<(Cow<'a, str>, usize)>)
        requires
            self.wf(),
            i <= self.s().len(),
        ensures
            match r {
                Some((t, e)) => {
                    &&& parse_string(self.s(), i as int) == Some(
                        (
                            SpecSlice {
                                value: SpecValue::String(t@),
                                code: self.s().subrange(i as int, e as int),
                            },
                            e as int,
                        ),
                    )
                    &&& i < e <= self.s().len()
                    &&& is_borrowed(&t) == no_backslash(self.s().subrange(i as int, e as int))
                },
                None => parse_string(self.s(), i as int) is None,
            },
    {
        if i >= self.len() {
            return None;
        }
        let c = self.at(i);
        if c == '"' {
            match self.quote_end(i + 1) {
                Some((j, esc)) => {
                    proof {
                        lemma_quote_end(self.s(), i + 1);
                    }
                    if esc {
                        let t = self.unescape(i + 1, j);
                        proof {
                            let k = choose|k: int| i + 1 <= k < j && self.s()[k] == '\\';
                            assert(self.s().subrange(i as int, j + 1)[k - i] == '\\');
                        }
                        Some((Cow::Owned(t), j + 1))
                    } else {
                        let t = self.code(i + 1, j);
                        proof {
                            let u = self.s().subrange(i + 1, j as int);
                            assert forall|k: int| 0 <= k < u.len() implies u[k] != '\\' by {
                                assert(u[k] == self.s()[i + 1 + k]);
                            }
                            lemma_unescape_plain(u);
                            let w = self.s().subrange(i as int, j + 1);
                            assert forall|k: int| 0 <= k < w.len() implies w[k] != '\\' by {
                                assert(w[k] == self.s()[i + k]);
                            }
                        }
                        Some((Cow::Borrowed(t), j + 1))
                    }
                },
                None => None,
            }
        } else if is_bare_char(c) {
            let mut j = i;
            proof {
                lemma_bare_end(self.s(), i as int);
            }
            while j < self.len() && is_bare_char(self.at(j))
                invariant
                    i <= j <= self.s().len(),
                    bare_end(self.s(), i as int) == bare_end(self.s(), j as int),
                decreases self.s().len() - j,
            {
                j = j + 1;
            }
            let t = self.code(i, j);
            proof {
                let w = self.s().subrange(i as int, j as int);
                assert forall|k: int| 0 <= k < w.len() implies w[k] != '\\' by {
                    assert(w[k] == self.s()[i + k]);
                    assert(is_bare(self.s()[i + k]));
                }
            }
            Some((Cow::Borrowed(t), j))
        } else {
            None
        }
    }

    /// A value at `i`: the value and the position after it.
    fn value(&self, i: usize) -> (r: Option<(Slice<'a>, usize)>)
        requires
            self.wf(),
            i <= self.s().len(),
        ensures
            match r {
                Some((v, e)) => parse_value(self.s(), i as int) == Some((v@, e as int)) && i
                    < e <= self.s().len() && borrows_exactly(&v.value, v.code@),
                None => parse_value(self.s(), i as int) is None,
            },
        decreases self.s().len() - i, 3int,
    {
        if i >= self.len() {
            None
        } else if self.is(i, '{') {
            self.dict(i)
        } else if self.is(i, '(') {
            self.array(i)
        } else {
            match self.string(i) {
                Some((t, e)) => {
                    let code = self.code(i, e);
                    Some((Slice { value: Value::String(t), code }, e))
                },
                None => None,
            }
        }
    }

    /// An entry at `k`: the entry and the position after it.
    fn entry(&self, k: usize) -> (r: Option<((Cow<'a, str>, Slice<'a>, &'a str), usize)>)
        requires
            self.wf(),
            k <= self.s().len(),
        ensures
            match r {
                Some((e, m)) => parse_entry(self.s(), k as int) == Some((entry_view(&e), m as int))
                    && k < m <= self.s().len() && is_borrowed(&e.0) == no_backslash(
                    key_code(e.2@),
                ) && borrows_exactly(&e.1.value, e.1.code@),
                None => parse_entry(self.s(), k as int) is None,
            },
        decreases self.s().len() - k, 0int,
    {
        let (key, after_key) = match self.string(k) {
            Some(r) => r,
            None => {
                return None;
            },
        };
        let eq = self.skip_space(after_key);
        if !self.is(eq, '=') {
            return None;
        }
        let v = self.skip_space(eq + 1);
        let (value, after_value) = match self.value(v) {
            Some(r) => r,
            None => {
                return None;
            },
        };
        let semi = self.skip_space(after_value);
        if !self.is(semi, ';') {
            return None;
        }
        let code = self.code(k, semi + 1);
        proof {
            lemma_key_code(self.s(), k as int, after_key as int, semi + 1);
        }
        Some(((key, value, code), semi + 1))
    }

    /// A dictionary at `i`: the dictionary and the position after it.
    fn dict(&self, i: usize) -> (r: Option<(Slice<'a>, usize)>)
        requires
            self.wf(),
            i <= self.s().len(),
        ensures
            match r {
                Some((v, e)) => parse_dict(self.s(), i as int) == Some((v@, e as int)) && i
                    < e <= self.s().len() && borrows_exactly(&v.value, v.code@),
                None => parse_dict(self.s(), i as int) is None,
            },
        decreases self.s().len() - i, 2int,
    {
        if !self.is(i, '{') {
            return None;
        }
        let ghost s = self.s();
        let first = self.skip_space(i + 1);
        let mut entries: Vec<(Cow<'a, str>, Slice<'a>, &'a str)> = Vec::new();
        let mut j = i + 1;
        let mut last = first;
        loop
            invariant
                self.wf(),
                s == self.s(),
                i < s.len(),
                s[i as int] == '{',
                first == skip_space(s, i + 1),
                i + 1 <= j <= s.len(),
                entries@.len() == 0 ==> j == i + 1,
                forall|n: int|
                    0 <= n < entries@.len() ==> {
                        &&& is_borrowed(&(#[trigger] entries@[n]).0) == no_backslash(
                            key_code(entries@[n].2@),
                        )
                        &&& borrows_exactly(&entries@[n].1.value, entries@[n].1.code@)
                    },
                entries@.len() > 0 ==> first < last && last == j,
                entries@.len() > 0 ==> parse_entries(s, i + 1) == match parse_entries(s, j as int) {
                    Some((rest, l, close)) => Some(
                        (
                            entries_view(entries@) + rest,
                            if rest.len() == 0 { last as int } else { l },
                            close,
                        ),
                    ),
                    None => None,
                },
            decreases s.len() - j,
        {
            let k = self.skip_space(j);
            if self.is(k, '}') {
                let code = if entries.len() == 0 {
                    ""
                } else {
                    self.code(first, last)
                };
                let ghost es = entries@;
                let slice = Slice { value: Value::Dict(entries), code };
                proof {
                    lemma_dict_view(entries);
                    assert(entries_view(es) + Seq::<SpecEntry>::empty() =~= entries_view(es));
                    if es.len() == 0 {
                        reveal_strlit("");
                        assert(code@ =~= Seq::<char>::empty());
                    }
                }
                return Some((slice, k + 1));
            }
            let (e, m) = match self.entry(k) {
                Some(r) => r,
                None => {
                    return None;
                },
            };
            proof {
                let ev = entry_view(&e);
                match parse_entries(s, m as int) {
                    Some((rest, l, close)) => {
                        assert(entries_view(entries@.push(e)) =~= entries_view(entries@) + seq![
                            ev,
                        ]);
                        assert(entries_view(entries@) + (seq![ev] + rest) =~= entries_view(
                            entries@,
                        ) + seq![ev] + rest);
                    },
                    None => {},
                }
            }
            entries.push(e);
            last = m;
            j = m;
        }
    }

    /// An array at `i`: the array and the position after it.
    fn array(&self, i: usize) -> (r: Option<(Slice<'a>, usize)>)
        requires
            self.wf(),
            i <= self.s().len(),
        ensures
            match r {
                Some((v, e)) => parse_array(self.s(), i as int) == Some((v@, e as int)) && i
                    < e <= self.s().len() && borrows_exactly(&v.value, v.code@),
                None => parse_array(self.s(), i as int) is None,
            },
        decreases self.s().len() - i, 2int,
    {
        if !self.is(i, '(') {
            return None;
        }
        let ghost s = self.s();
        let j = self.skip_space(i + 1);
        if self.is(j, ')') {
            let items: Vec<Slice<'a>> = Vec::new();
            let slice = Slice { value: Value::Array(items), code: "" };
            proof {
                lemma_array_view(items);
                reveal_strlit("");
                assert(slices_view(items@) =~= Seq::<SpecSlice>::empty());
                assert(slice.code@ =~= Seq::<char>::empty());
            }
            return Some((slice, j + 1));
        }
        let (first, e) = match self.value(j) {
            Some(r) => r,
            None => {
                return None;
            },
        };
        let mut items: Vec<Slice<'a>> = Vec::new();
        let ghost fv = first@;
        items.push(first);
        proof {
            assert(slices_view(items@) =~= seq![fv]);
        }
        let mut last = e;
        loop
            invariant
                self.wf(),
                s == self.s(),
                i < j < last <= s.len(),
                s[i as int] == '(',
                j == skip_space(s, i + 1),
                items@.len() > 0,
                forall|n: int|
                    0 <= n < items@.len() ==> borrows_exactly(
                        &(#[trigger] items@[n]).value,
                        items@[n].code@,
                    ),
                parse_array(s, i as int) == match parse_items(s, last as int) {
                    Some((rest, l, close)) => Some(
                        (
                            SpecSlice {
                                value: SpecValue::Array(slices_view(items@) + rest),
                                code: s.subrange(j as int, l),
                            },
                            close,
                        ),
                    ),
                    None => None,
                },
            decreases s.len() - last,
        {
            let k = self.skip_space(last);
            if self.is(k, ')') {
                let code = self.code(j, last);
                let ghost vs = items@;
                let slice = Slice { value: Value::Array(items), code };
                proof {
                    lemma_array_view(items);
                    assert(slices_view(vs) + Seq::<SpecSlice>::empty() =~= slices_view(vs));
                }
                return Some((slice, k + 1));
            }
            if !self.is(k, ',') {
                return None;
            }
            let k2 = self.skip_space(k + 1);
            if self.is(k2, ')') {
                let code = self.code(j, last);
                let ghost vs = items@;
                let slice = Slice { value: Value::Array(items), code };
                proof {
                    lemma_array_view(items);
                    assert(slices_view(vs) + Seq::<SpecSlice>::empty() =~= slices_view(vs));
                }
                return Some((slice, k2 + 1));
            }
            let (v, e2) = match self.value(k2) {
                Some(r) => r,
                None => {
                    return None;
                },
            };
            proof {
                match parse_items(s, e2 as int) {
                    Some((rest, l, close)) => {
                        assert(slices_view(items@.push(v)) =~= slices_view(items@) + seq![v@]);
                        assert(slices_view(items@) + (seq![v@] + rest) =~= slices_view(items@)
                            + seq![v@] + rest);
                    },
                    None => {},
                }
            }
            items.push(v);
            last = e2;
        }
    }
}

/// The texts of a list of string slices.
pub open spec fn texts(codes: Seq<&str>) -> Seq<Seq<char>> {
    codes.map_values(|c: &str| c@)
}

/// Each code followed by a line break.
pub open spec fn lines(codes: Seq<Seq<char>>) -> Seq<char>
    decreases codes.len(),
{
    if codes.len() == 0 {
        seq![]
    } else {
        lines(codes.drop_last()) + codes.last() + seq!['\n']
    }
}

/// The codes separated by `sep`.
pub open spec fn joined(codes: Seq<Seq<char>>, sep: Seq<char>) -> Seq<char>
    decreases codes.len(),
{
    if codes.len() == 0 {
        seq![]
    } else if codes.len() == 1 {
        codes[0]
    } else {
        joined(codes.drop_last(), sep) + sep + codes.last()
    }
}

/// A dictionary file made of entry codes: `{`, each code on a line of its own, `}`, and a
/// final line break.
pub open spec fn dict_text(codes: Seq<Seq<char>>) -> Seq<char> {
    seq!['{', '\n'] + lines(codes) + seq!['}', '\n']
}

/// An array file made of value codes: `(`, the codes on lines of their own separated by
/// commas, and `)` with no line break after it.
pub open spec fn array_text(codes: Seq<Seq<char>>) -> Seq<char> {
    seq!['(', '\n'] + (if codes.len() == 0 {
        seq![]
    } else {
        joined(codes, seq![',', '\n']) + seq!['\n']
    }) + seq![')']
}

/// The text of a dictionary file whose entries are `codes`.
pub fn dict_file_text(codes: &[&str]) -> (r: String)
    ensures
        r@ == dict_text(texts(codes@)),
{
    let mut out = String::new();
    push_char(&mut out, '{');
    push_char(&mut out, '\n');
    let ghost head = out@;
    let mut i: usize = 0;
    while i < codes.len()
        invariant
            0 <= i <= codes@.len(),
            out@ == head + lines(texts(codes@).take(i as int)),
        decreases codes@.len() - i,
    {
        let ghost before = out@;
        push_str(&mut out, codes[i]);
        push_char(&mut out, '\n');
        proof {
            let cs = texts(codes@);
            assert(cs.take(i + 1).drop_last() =~= cs.take(i as int));
            assert(cs.take(i + 1).last() == codes@[i as int]@);
            assert(out@ =~= head + lines(cs.take(i + 1)));
        }
        i = i + 1;
    }
    push_char(&mut out, '}');
    push_char(&mut out, '\n');
    proof {
        assert(texts(codes@).take(codes@.len() as int) =~= texts(codes@));
        assert(out@ =~= dict_text(texts(codes@)));
    }
    out
}

/// The text of an array file whose values are `codes`.
pub fn array_file_text(codes: &[&str]) -> (r: String)
    ensures
        r@ == array_text(texts(codes@)),
{
    let mut out = String::new();
    push_char(&mut out, '(');
    push_char(&mut out, '\n');
    let ghost head = out@;
    let mut i: usize = 0;
    while i < codes.len()
        invariant
            0 <= i <= codes@.len(),
            out@ == head + joined(texts(codes@).take(i as int), seq![',', '\n']),
        decreases codes@.len() - i,
    {
        let ghost before = out@;
        if i > 0 {
            push_char(&mut out, ',');
            push_char(&mut out, '\n');
        }
        push_str(&mut out, codes[i]);
        proof {
            let cs = texts(codes@);
            assert(cs.take(i + 1).drop_last() =~= cs.take(i as int));
            assert(cs.take(i + 1).last() == codes@[i as int]@);
            if i == 0 {
                assert(cs.take(1)[0] == codes@[0]@);
                assert(joined(cs.take(0), seq![',', '\n']) =~= Seq::<char>::empty());
            }
            assert(out@ =~= head + joined(cs.take(i + 1), seq![',', '\n']));
        }
        i = i + 1;
    }
    if codes.len() > 0 {
        push_char(&mut out, '\n');
    }
    push_char(&mut out, ')');
    proof {
        assert(texts(codes@).take(codes@.len() as int) =~= texts(codes@));
        assert(out@ =~= array_text(texts(codes@)));
    }
    out
}

/// Whether `c` may stand in an unquoted string.
fn is_bare_char(c: char) -> (b: bool)
    ensures
        b == is_bare(c),
{
    ('a' <= c && c <= 'z') || ('A' <= c && c <= 'Z') || ('0' <= c && c <= '9') || c == '_'
        || c == '.' || c == '-' || c == '$' || c == '/' || c == ':' || c == '+'
}

} // verus!

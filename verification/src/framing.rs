//! What a parse reads: a value parsed from one text parses the same from any other text
//! that holds the same characters where the parse looked.
use vstd::prelude::*;

use crate::grammar::{
    bare_end, block_end, is_bare, is_line_break, is_space,
    lemma_bare_end, lemma_block_end, lemma_line_end, lemma_quote_end, lemma_skip_space, line_end,
    parse_array, parse_dict, parse_entries, parse_entry, parse_items, parse_string, parse_value,
    quote_end, skip_space, starts_with2,
};

verus! {

/// `t`, shifted by `d`, holds the characters of `s` from `a` up to `b`.
pub open spec fn same(s: Seq<char>, t: Seq<char>, a: int, b: int, d: int) -> bool {
    &&& 0 <= a <= b <= s.len()
    &&& 0 <= a + d
    &&& b + d <= t.len()
    &&& forall|k: int| a <= k < b ==> t[k + d] == #[trigger] s[k]
}

pub proof fn lemma_same_sub(s: Seq<char>, t: Seq<char>, a: int, b: int, d: int, a2: int, b2: int)
    requires
        same(s, t, a, b, d),
        a <= a2 <= b2 <= b,
    ensures
        same(s, t, a2, b2, d),
        t.subrange(a2 + d, b2 + d) == s.subrange(a2, b2),
{
    assert(t.subrange(a2 + d, b2 + d) =~= s.subrange(a2, b2)) by {
        assert forall|k: int| 0 <= k < b2 - a2 implies t.subrange(a2 + d, b2 + d)[k] == s.subrange(
            a2,
            b2,
        )[k] by {
            assert(s[a2 + k] == t[a2 + k + d]);
        }
    }
}

pub proof fn lemma_frame_line_end(s: Seq<char>, t: Seq<char>, i: int, d: int)
    requires
        0 <= i <= s.len(),
        line_end(s, i) < s.len(),
        same(s, t, i, line_end(s, i) + 1, d),
    ensures
        line_end(t, i + d) == line_end(s, i) + d,
    decreases s.len() - i,
{
    lemma_line_end(s, i);
    assert(t[i + d] == s[i]);
    if !is_line_break(s[i]) {
        lemma_frame_line_end(s, t, i + 1, d);
    }
}

pub proof fn lemma_frame_block_end(s: Seq<char>, t: Seq<char>, i: int, d: int)
    requires
        0 <= i <= s.len(),
        block_end(s, i) is Some,
        same(s, t, i, block_end(s, i)->0, d),
    ensures
        block_end(t, i + d) == Some(block_end(s, i)->0 + d),
    decreases s.len() - i,
{
    lemma_block_end(s, i);
    assert(t[i + d] == s[i]);
    assert(t[i + 1 + d] == s[i + 1]);
    if !(s[i] == '*' && s[i + 1] == '/') {
        lemma_block_end(s, i + 1);
        lemma_frame_block_end(s, t, i + 1, d);
    }
}

/// Where a run of space and comments stops, `t` looks the same as `s`: the stopping
/// character is copied, and a `/` there is followed by a copied character that opens no
/// comment.
pub open spec fn clean_stop(s: Seq<char>, t: Seq<char>, j: int, k: int, d: int) -> bool {
    &&& k < s.len()
    &&& same(s, t, j, k + 1, d)
    &&& s[k] == '/' ==> k + 1 < s.len() && s[k + 1] != '*' && (same(s, t, j, k + 2, d) || (k + 1
        + d < t.len() && is_space(t[k + 1 + d])))
}

pub proof fn lemma_frame_skip(s: Seq<char>, t: Seq<char>, j: int, d: int)
    requires
        0 <= j <= s.len(),
        clean_stop(s, t, j, skip_space(s, j), d),
    ensures
        skip_space(t, j + d) == skip_space(s, j) + d,
    decreases s.len() - j,
{
    let k = skip_space(s, j);
    lemma_skip_space(s, j);
    assert(t[j + d] == s[j]);
    if j < s.len() {
        if is_space(s[j]) {
            lemma_skip_space(s, j + 1);
            lemma_frame_skip(s, t, j + 1, d);
        } else if starts_with2(s, j, '/', '/') {
            lemma_line_end(s, j + 2);
            let l = line_end(s, j + 2);
            lemma_skip_space(s, l);
            assert(t[j + 1 + d] == s[j + 1]);
            lemma_frame_line_end(s, t, j + 2, d);
            lemma_frame_skip(s, t, l, d);
        } else if starts_with2(s, j, '/', '*') {
            lemma_block_end(s, j + 2);
            match block_end(s, j + 2) {
                Some(b) => {
                    lemma_skip_space(s, b);
                    assert(t[j + 1 + d] == s[j + 1]);
                    lemma_frame_block_end(s, t, j + 2, d);
                    lemma_frame_skip(s, t, b, d);
                },
                None => {
                    assert(false);
                },
            }
        } else {
            if s[j] == '/' && same(s, t, j, k + 2, d) {
                assert(t[j + 1 + d] == s[j + 1]);
            }
        }
    }
}

pub proof fn lemma_frame_quote_end(s: Seq<char>, t: Seq<char>, j: int, d: int)
    requires
        0 <= j <= s.len(),
        quote_end(s, j) is Some,
        same(s, t, j, quote_end(s, j)->0 + 1, d),
    ensures
        quote_end(t, j + d) == Some(quote_end(s, j)->0 + d),
    decreases s.len() - j,
{
    lemma_quote_end(s, j);
    assert(t[j + d] == s[j]);
    if s[j] != '"' {
        if s[j] == '\\' && j + 1 < s.len() {
            lemma_quote_end(s, j + 2);
            lemma_frame_quote_end(s, t, j + 2, d);
        } else {
            lemma_quote_end(s, j + 1);
            lemma_frame_quote_end(s, t, j + 1, d);
        }
    }
}

/// After an unquoted string ends at `e` in `t`, nothing continues it.
pub open spec fn bare_stop(t: Seq<char>, e: int) -> bool {
    e == t.len() || (0 <= e < t.len() && !is_bare(t[e]))
}

pub proof fn lemma_frame_bare_end(s: Seq<char>, t: Seq<char>, i: int, d: int)
    requires
        0 <= i <= s.len(),
        same(s, t, i, bare_end(s, i), d),
        bare_stop(t, bare_end(s, i) + d),
    ensures
        bare_end(t, i + d) == bare_end(s, i) + d,
    decreases s.len() - i,
{
    lemma_bare_end(s, i);
    if i < s.len() && is_bare(s[i]) {
        assert(t[i + d] == s[i]);
        lemma_frame_bare_end(s, t, i + 1, d);
    }
}

pub proof fn lemma_frame_string(s: Seq<char>, t: Seq<char>, i: int, d: int)
    requires
        0 <= i <= s.len(),
        parse_string(s, i) is Some,
        same(s, t, i, (parse_string(s, i)->0).1, d),
        s[i] != '"' ==> bare_stop(t, (parse_string(s, i)->0).1 + d),
    ensures
        parse_string(t, i + d) == Some(((parse_string(s, i)->0).0, (parse_string(s, i)->0).1 + d)),
{
    if s[i] == '"' {
        lemma_quote_end(s, i + 1);
        let q = quote_end(s, i + 1)->0;
        assert(t[i + d] == s[i]);
        lemma_frame_quote_end(s, t, i + 1, d);
        lemma_same_sub(s, t, i, q + 1, d, i + 1, q);
        lemma_same_sub(s, t, i, q + 1, d, i, q + 1);
    } else {
        lemma_bare_end(s, i);
        lemma_bare_end(s, i + 1);
        let b = bare_end(s, i);
        assert(t[i + d] == s[i]);
        lemma_frame_bare_end(s, t, i, d);
        lemma_same_sub(s, t, i, b, d, i, b);
    }
}

/// Where the parses end: always after where they start, and within the text.
pub proof fn lemma_ends_value(s: Seq<char>, i: int)
    requires
        0 <= i <= s.len(),
        parse_value(s, i) is Some,
    ensures
        i < (parse_value(s, i)->0).1 <= s.len(),
    decreases s.len() - i, 3int,
{
    if s[i] == '{' {
        lemma_ends_dict(s, i);
    } else if s[i] == '(' {
        lemma_ends_array(s, i);
    } else {
        lemma_ends_string(s, i);
    }
}

pub proof fn lemma_ends_string(s: Seq<char>, i: int)
    requires
        0 <= i <= s.len(),
        parse_string(s, i) is Some,
    ensures
        i < (parse_string(s, i)->0).1 <= s.len(),
{
    if s[i] == '"' {
        lemma_quote_end(s, i + 1);
    } else {
        lemma_bare_end(s, i + 1);
    }
}

pub proof fn lemma_ends_dict(s: Seq<char>, i: int)
    requires
        0 <= i <= s.len(),
        parse_dict(s, i) is Some,
    ensures
        i < (parse_dict(s, i)->0).1 <= s.len(),
    decreases s.len() - i, 2int,
{
    lemma_ends_entries(s, i + 1);
}

pub proof fn lemma_ends_entries(s: Seq<char>, j: int)
    requires
        0 <= j <= s.len(),
        parse_entries(s, j) is Some,
    ensures
        ({
            let (es, last, close) = parse_entries(s, j)->0;
            &&& j < close <= s.len()
            &&& j <= skip_space(s, j) < close
            &&& s[close - 1] == '}'
            &&& es.len() > 0 ==> skip_space(s, j) < last < close
            &&& es.len() > 0 ==> parse_entry(s, skip_space(s, j)) is Some && (parse_entry(
                s,
                skip_space(s, j),
            )->0).1 <= last
        }),
    decreases s.len() - j, 1int,
{
    lemma_skip_space(s, j);
    let k = skip_space(s, j);
    if !(0 <= k < s.len() && s[k] == '}') {
        lemma_ends_entry(s, k);
        let m = (parse_entry(s, k)->0).1;
        lemma_ends_entries(s, m);
    }
}

pub proof fn lemma_ends_entry(s: Seq<char>, k: int)
    requires
        0 <= k <= s.len(),
        parse_entry(s, k) is Some,
    ensures
        k < (parse_entry(s, k)->0).1 <= s.len(),
    decreases s.len() - k, 0int,
{
}

pub proof fn lemma_ends_array(s: Seq<char>, i: int)
    requires
        0 <= i <= s.len(),
        parse_array(s, i) is Some,
    ensures
        i < (parse_array(s, i)->0).1 <= s.len(),
    decreases s.len() - i, 2int,
{
    lemma_skip_space(s, i + 1);
    let j = skip_space(s, i + 1);
    if !(0 <= j < s.len() && s[j] == ')') {
        let e = (parse_value(s, j)->0).1;
        lemma_ends_items(s, e);
    }
}

pub proof fn lemma_ends_items(s: Seq<char>, e: int)
    requires
        0 <= e <= s.len(),
        parse_items(s, e) is Some,
    ensures
        ({
            let (vs, last, close) = parse_items(s, e)->0;
            &&& e <= last < close <= s.len()
            &&& skip_space(s, e) < close
            &&& s[skip_space(s, e)] == ')' || s[skip_space(s, e)] == ','
        }),
    decreases s.len() - e, 1int,
{
    lemma_skip_space(s, e);
    let k = skip_space(s, e);
    if s[k] == ',' {
        lemma_skip_space(s, k + 1);
        let k2 = skip_space(s, k + 1);
        if !(0 <= k2 < s.len() && s[k2] == ')') {
            let e2 = (parse_value(s, k2)->0).1;
            lemma_ends_items(s, e2);
        }
    }
}

/// A token that starts with `/` and is followed by what the grammar needs next is not
/// the opening of a block comment.
pub proof fn lemma_slash_head(s: Seq<char>, k: int, x: int)
    requires
        0 <= k < s.len(),
        s[k] == '/',
        parse_string(s, k) is Some,
        (parse_string(s, k)->0).1 == x,
        x < s.len(),
        skip_space(s, x) < s.len(),
        s[skip_space(s, x)] != '*',
    ensures
        k + 1 <= x,
        s[k + 1] != '*',
{
    lemma_bare_end(s, k + 1);
    lemma_bare_end(s, k);
    if x == k + 1 {
        if s[x] == '*' {
            assert(skip_space(s, x) == x);
        }
    } else {
        assert(is_bare(s[k + 1]));
    }
}

pub proof fn lemma_entry_head(s: Seq<char>, k: int)
    requires
        0 <= k < s.len(),
        parse_entry(s, k) is Some,
        s[k] == '/',
    ensures
        k + 1 < (parse_entry(s, k)->0).1,
        s[k + 1] != '*',
{
    let ak = (parse_string(s, k)->0).1;
    lemma_skip_space(s, ak);
    lemma_slash_head(s, k, ak);
}

/// A value parses from `t` as from `s` when `t` holds the characters that the parse read.
pub proof fn lemma_frame_value(s: Seq<char>, t: Seq<char>, i: int, d: int)
    requires
        0 <= i <= s.len(),
        parse_value(s, i) is Some,
        same(s, t, i, (parse_value(s, i)->0).1, d),
        is_bare(s[i]) ==> bare_stop(t, (parse_value(s, i)->0).1 + d),
    ensures
        parse_value(t, i + d) == Some(((parse_value(s, i)->0).0, (parse_value(s, i)->0).1 + d)),
    decreases s.len() - i, 3int,
{
    lemma_ends_value(s, i);
    assert(t[i + d] == s[i]);
    if s[i] == '{' {
        lemma_frame_dict(s, t, i, d);
    } else if s[i] == '(' {
        lemma_frame_array(s, t, i, d);
    } else {
        lemma_frame_string(s, t, i, d);
    }
}

pub proof fn lemma_frame_dict(s: Seq<char>, t: Seq<char>, i: int, d: int)
    requires
        0 <= i <= s.len(),
        parse_dict(s, i) is Some,
        same(s, t, i, (parse_dict(s, i)->0).1, d),
    ensures
        parse_dict(t, i + d) == Some(((parse_dict(s, i)->0).0, (parse_dict(s, i)->0).1 + d)),
    decreases s.len() - i, 2int,
{
    lemma_ends_dict(s, i);
    lemma_ends_entries(s, i + 1);
    let (es, last, close) = parse_entries(s, i + 1)->0;
    assert(t[i + d] == s[i]);
    lemma_same_sub(s, t, i, close, d, i + 1, close);
    lemma_frame_entries(s, t, i + 1, d);
    if es.len() > 0 {
        lemma_same_sub(s, t, i, close, d, skip_space(s, i + 1), last);
    }
}

pub proof fn lemma_frame_entries(s: Seq<char>, t: Seq<char>, j: int, d: int)
    requires
        0 <= j <= s.len(),
        parse_entries(s, j) is Some,
        same(s, t, j, (parse_entries(s, j)->0).2, d),
    ensures
        parse_entries(t, j + d) == Some(
            (
                (parse_entries(s, j)->0).0,
                (parse_entries(s, j)->0).1 + d,
                (parse_entries(s, j)->0).2 + d,
            ),
        ),
        (parse_entries(s, j)->0).0.len() > 0 ==> skip_space(t, j + d) == skip_space(s, j) + d,
    decreases s.len() - j, 1int,
{
    lemma_ends_entries(s, j);
    lemma_skip_space(s, j);
    let close = (parse_entries(s, j)->0).2;
    let k = skip_space(s, j);
    if 0 <= k < s.len() && s[k] == '}' {
        lemma_same_sub(s, t, j, close, d, j, k + 1);
        lemma_frame_skip(s, t, j, d);
        assert(t[k + d] == s[k]);
    } else {
        lemma_ends_entry(s, k);
        let m = (parse_entry(s, k)->0).1;
        lemma_ends_entries(s, m);
        if s[k] == '/' {
            lemma_entry_head(s, k);
            lemma_same_sub(s, t, j, close, d, j, k + 2);
        } else {
            lemma_same_sub(s, t, j, close, d, j, k + 1);
        }
        lemma_frame_skip(s, t, j, d);
        assert(t[k + d] == s[k]);
        lemma_same_sub(s, t, j, close, d, k, m);
        lemma_frame_entry(s, t, k, d);
        lemma_same_sub(s, t, j, close, d, m, close);
        lemma_frame_entries(s, t, m, d);
    }
}

pub proof fn lemma_frame_entry(s: Seq<char>, t: Seq<char>, k: int, d: int)
    requires
        0 <= k <= s.len(),
        parse_entry(s, k) is Some,
        same(s, t, k, (parse_entry(s, k)->0).1, d),
    ensures
        parse_entry(t, k + d) == Some(((parse_entry(s, k)->0).0, (parse_entry(s, k)->0).1 + d)),
    decreases s.len() - k, 0int,
{
    let m = (parse_entry(s, k)->0).1;
    let ak = (parse_string(s, k)->0).1;
    let eq = skip_space(s, ak);
    let v = skip_space(s, eq + 1);
    let av = (parse_value(s, v)->0).1;
    let semi = skip_space(s, av);
    lemma_ends_string(s, k);
    lemma_skip_space(s, ak);
    lemma_skip_space(s, eq + 1);
    lemma_ends_value(s, v);
    lemma_skip_space(s, av);
    // The key.
    lemma_same_sub(s, t, k, m, d, k, ak);
    if s[k] != '"' {
        lemma_bare_end(s, k);
        assert(t[ak + d] == s[ak]);
    }
    lemma_frame_string(s, t, k, d);
    // The `=`.
    lemma_same_sub(s, t, k, m, d, ak, eq + 1);
    lemma_frame_skip(s, t, ak, d);
    assert(t[eq + d] == s[eq]);
    // The value.
    if s[v] == '/' {
        lemma_slash_head(s, v, av);
        lemma_same_sub(s, t, k, m, d, eq + 1, v + 2);
    } else {
        lemma_same_sub(s, t, k, m, d, eq + 1, v + 1);
    }
    lemma_frame_skip(s, t, eq + 1, d);
    lemma_same_sub(s, t, k, m, d, v, av);
    if is_bare(s[v]) {
        lemma_bare_end(s, v);
        assert(t[av + d] == s[av]);
    }
    lemma_frame_value(s, t, v, d);
    // The `;`.
    lemma_same_sub(s, t, k, m, d, av, semi + 1);
    lemma_frame_skip(s, t, av, d);
    assert(t[semi + d] == s[semi]);
    lemma_same_sub(s, t, k, m, d, k, m);
}

pub proof fn lemma_frame_array(s: Seq<char>, t: Seq<char>, i: int, d: int)
    requires
        0 <= i <= s.len(),
        parse_array(s, i) is Some,
        same(s, t, i, (parse_array(s, i)->0).1, d),
    ensures
        parse_array(t, i + d) == Some(((parse_array(s, i)->0).0, (parse_array(s, i)->0).1 + d)),
    decreases s.len() - i, 2int,
{
    lemma_ends_array(s, i);
    lemma_skip_space(s, i + 1);
    let close = (parse_array(s, i)->0).1;
    let j = skip_space(s, i + 1);
    assert(t[i + d] == s[i]);
    if 0 <= j < s.len() && s[j] == ')' {
        lemma_same_sub(s, t, i, close, d, i + 1, j + 1);
        lemma_frame_skip(s, t, i + 1, d);
        assert(t[j + d] == s[j]);
    } else {
        lemma_ends_value(s, j);
        let e = (parse_value(s, j)->0).1;
        lemma_ends_items(s, e);
        let l = (parse_items(s, e)->0).1;
        if s[j] == '/' {
            lemma_slash_head(s, j, e);
            lemma_same_sub(s, t, i, close, d, i + 1, j + 2);
        } else {
            lemma_same_sub(s, t, i, close, d, i + 1, j + 1);
        }
        lemma_frame_skip(s, t, i + 1, d);
        assert(t[j + d] == s[j]);
        lemma_same_sub(s, t, i, close, d, j, e);
        if is_bare(s[j]) {
            lemma_bare_end(s, j);
            lemma_skip_space(s, e);
            assert(t[e + d] == s[e]);
        }
        lemma_frame_value(s, t, j, d);
        lemma_same_sub(s, t, i, close, d, e, close);
        lemma_frame_items(s, t, e, d);
        lemma_same_sub(s, t, i, close, d, j, l);
    }
}

pub proof fn lemma_frame_items(s: Seq<char>, t: Seq<char>, e: int, d: int)
    requires
        0 <= e <= s.len(),
        parse_items(s, e) is Some,
        same(s, t, e, (parse_items(s, e)->0).2, d),
    ensures
        parse_items(t, e + d) == Some(
            (
                (parse_items(s, e)->0).0,
                (parse_items(s, e)->0).1 + d,
                (parse_items(s, e)->0).2 + d,
            ),
        ),
    decreases s.len() - e, 1int,
{
    lemma_ends_items(s, e);
    lemma_skip_space(s, e);
    let close = (parse_items(s, e)->0).2;
    let k = skip_space(s, e);
    lemma_same_sub(s, t, e, close, d, e, k + 1);
    lemma_frame_skip(s, t, e, d);
    assert(t[k + d] == s[k]);
    if s[k] == ',' {
        lemma_skip_space(s, k + 1);
        let k2 = skip_space(s, k + 1);
        if 0 <= k2 < s.len() && s[k2] == ')' {
            lemma_same_sub(s, t, e, close, d, k + 1, k2 + 1);
            lemma_frame_skip(s, t, k + 1, d);
            assert(t[k2 + d] == s[k2]);
        } else {
            lemma_ends_value(s, k2);
            let e2 = (parse_value(s, k2)->0).1;
            lemma_ends_items(s, e2);
            if s[k2] == '/' {
                lemma_slash_head(s, k2, e2);
                lemma_same_sub(s, t, e, close, d, k + 1, k2 + 2);
            } else {
                lemma_same_sub(s, t, e, close, d, k + 1, k2 + 1);
            }
            lemma_frame_skip(s, t, k + 1, d);
            assert(t[k2 + d] == s[k2]);
            lemma_same_sub(s, t, e, close, d, k2, e2);
            if is_bare(s[k2]) {
                lemma_bare_end(s, k2);
                lemma_skip_space(s, e2);
                assert(t[e2 + d] == s[e2]);
            }
            lemma_frame_value(s, t, k2, d);
            lemma_same_sub(s, t, e, close, d, e2, close);
            lemma_frame_items(s, t, e2, d);
        }
    }
}

} // verus!

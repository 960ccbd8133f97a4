//! What is written back from parsed text parses to what was read.
use vstd::prelude::*;

use crate::framing::{
    lemma_ends_entries, lemma_ends_entry, lemma_ends_items, lemma_ends_value, lemma_entry_head,
    lemma_frame_entry, lemma_frame_skip, lemma_frame_value, lemma_same_sub, lemma_slash_head,
    same,
};
use crate::grammar::{
    SpecEntry, SpecSlice, SpecValue, bare_end, block_end, is_bare, is_space, lemma_bare_end,
    lemma_block_end, lemma_line_end, lemma_skip_space, line_end, parse_array, parse_dict,
    parse_entries, parse_entry, parse_items, parse_string, parse_value, skip_space,
    starts_with2,
};
use crate::plist::{Root, array_text, dict_text, joined, lines, parse_root};

verus! {

/// Where a run of space and comments stops: at the end, or at a character that is no space
/// and opens no comment (a `/*` there is never closed).
pub proof fn lemma_skip_result(s: Seq<char>, j: int)
    requires
        0 <= j <= s.len(),
    ensures
        ({
            let k = skip_space(s, j);
            k == s.len() || (!is_space(s[k]) && !starts_with2(s, k, '/', '/') && (starts_with2(
                s,
                k,
                '/',
                '*',
            ) ==> block_end(s, k + 2) is None))
        }),
    decreases s.len() - j,
{
    if j < s.len() {
        if is_space(s[j]) {
            lemma_skip_result(s, j + 1);
        } else if starts_with2(s, j, '/', '/') {
            lemma_line_end(s, j + 2);
            lemma_skip_result(s, line_end(s, j + 2));
        } else if starts_with2(s, j, '/', '*') {
            lemma_block_end(s, j + 2);
            if let Some(b) = block_end(s, j + 2) {
                lemma_skip_result(s, b);
            }
        }
    }
}

/// Space and comments are passed over at once: from where they stop, nothing more is.
pub proof fn lemma_skip_idem(s: Seq<char>, j: int)
    requires
        0 <= j <= s.len(),
    ensures
        skip_space(s, skip_space(s, j)) == skip_space(s, j),
{
    lemma_skip_result(s, j);
}

/// A position that holds no space and opens no comment is where a run of them stops.
pub proof fn lemma_skip_none(t: Seq<char>, p: int)
    requires
        0 <= p < t.len(),
        !is_space(t[p]),
        !starts_with2(t, p, '/', '/'),
        !starts_with2(t, p, '/', '*'),
    ensures
        skip_space(t, p) == p,
{
}

/// The entries from `j` on depend on `j` only through where the space after it stops.
pub proof fn lemma_entries_from_stop(t: Seq<char>, j: int, j2: int)
    requires
        0 <= j <= skip_space(t, j) <= t.len(),
        0 <= j2 <= skip_space(t, j2),
        skip_space(t, j) == skip_space(t, j2),
    ensures
        parse_entries(t, j) == parse_entries(t, j2),
{
}

/// An entry written on its own: `c` is exactly the text of the entry `e`, and does not
/// start like a comment.
pub open spec fn is_entry_code(c: Seq<char>, e: SpecEntry) -> bool {
    &&& parse_entry(c, 0) == Some((e, c.len() as int))
    &&& !starts_with2(c, 0, '/', '/')
}

/// The text of an entry found at `k` (after space) is that entry written on its own.
pub proof fn lemma_entry_code(s: Seq<char>, j: int)
    requires
        0 <= j <= s.len(),
        skip_space(s, j) < s.len(),
        parse_entry(s, skip_space(s, j)) is Some,
    ensures
        is_entry_code(
            (parse_entry(s, skip_space(s, j))->0).0.code,
            (parse_entry(s, skip_space(s, j))->0).0,
        ),
{
    let k = skip_space(s, j);
    lemma_skip_space(s, j);
    lemma_skip_result(s, j);
    lemma_ends_entry(s, k);
    let m = (parse_entry(s, k)->0).1;
    let c = s.subrange(k, m);
    assert((parse_entry(s, k)->0).0.code == c);
    assert(same(s, c, k, m, -k));
    lemma_frame_entry(s, c, k, -k);
    if m - k >= 2 {
        assert(c[0] == s[k] && c[1] == s[k + 1]);
    }
}

/// Every entry of a dictionary's entry list is written by its own text.
pub proof fn lemma_entries_codes(s: Seq<char>, j: int)
    requires
        0 <= j <= s.len(),
        parse_entries(s, j) is Some,
    ensures
        forall|i: int|
            0 <= i < (parse_entries(s, j)->0).0.len() ==> is_entry_code(
                #[trigger] (parse_entries(s, j)->0).0[i].code,
                (parse_entries(s, j)->0).0[i],
            ),
    decreases s.len() - j,
{
    lemma_skip_space(s, j);
    let k = skip_space(s, j);
    if !(0 <= k < s.len() && s[k] == '}') {
        lemma_entry_code(s, j);
        lemma_ends_entry(s, k);
        let m = (parse_entry(s, k)->0).1;
        lemma_entries_codes(s, m);
        let es = (parse_entries(s, j)->0).0;
        let rest = (parse_entries(s, m)->0).0;
        assert forall|i: int| 0 <= i < es.len() implies is_entry_code(
            #[trigger] es[i].code,
            es[i],
        ) by {
            if i > 0 {
                assert(es[i] == rest[i - 1]);
            }
        }
    }
}

/// Law: every entry that a dictionary parse yields is written by its own text, which
/// parses, alone, to that same entry.
pub proof fn law_dict_entries_are_codes(s: Seq<char>, i: int)
    requires
        0 <= i <= s.len(),
        parse_dict(s, i) is Some,
    ensures
        (parse_dict(s, i)->0).0.value matches SpecValue::Dict(es) && forall|k: int|
            0 <= k < es.len() ==> is_entry_code(#[trigger] es[k].code, es[k]),
{
    lemma_entries_codes(s, i + 1);
}

/// The entry codes, each followed by a line break, built from the front.
pub open spec fn lines_front(cs: Seq<Seq<char>>) -> Seq<char>
    decreases cs.len(),
{
    if cs.len() == 0 {
        seq![]
    } else {
        cs[0] + seq!['\n'] + lines_front(cs.drop_first())
    }
}

proof fn lemma_lines_front(cs: Seq<Seq<char>>)
    ensures
        lines(cs) == lines_front(cs),
    decreases cs.len(),
{
    if cs.len() > 0 {
        lemma_lines_front(cs.drop_last());
        if cs.len() == 1 {
            assert(cs.drop_last() =~= Seq::<Seq<char>>::empty());
            assert(cs.drop_first() =~= Seq::<Seq<char>>::empty());
            assert(lines_front(cs) =~= cs[0] + seq!['\n']);
            assert(lines(cs) =~= cs[0] + seq!['\n']);
        } else {
            let mid = cs.drop_first().drop_last();
            assert(cs.drop_last().drop_first() =~= mid);
            assert(cs.drop_first().last() == cs.last());
            lemma_lines_front(cs.drop_first());
            lemma_lines_front(mid);
            lemma_lines_front(cs.drop_last().drop_first());
            assert(lines(cs.drop_first()) == lines(mid) + cs.last() + seq!['\n']);
            assert(lines(cs.drop_last()) == lines_front(cs.drop_last()));
            assert(lines_front(cs.drop_last()) == cs[0] + seq!['\n'] + lines_front(mid));
            assert(lines(cs) =~= cs[0] + seq!['\n'] + lines(cs.drop_first()));
        }
    }
}

/// An entry code is at least as long as `k=v;`, and its first characters open no comment
/// and are no space.
proof fn lemma_entry_code_head(c: Seq<char>, e: SpecEntry)
    requires
        is_entry_code(c, e),
    ensures
        c.len() >= 4,
        !is_space(c[0]),
        c[0] != '}',
        c[0] == '/' ==> c[1] != '*' && c[1] != '/',
{
    lemma_ends_entry(c, 0);
    let ak = (parse_string(c, 0)->0).1;
    lemma_skip_space(c, ak);
    let eq = skip_space(c, ak);
    lemma_skip_space(c, eq + 1);
    let v = skip_space(c, eq + 1);
    lemma_ends_value(c, v);
    let av = (parse_value(c, v)->0).1;
    lemma_skip_space(c, av);
    if c[0] == '/' {
        lemma_entry_head(c, 0);
    }
}

/// Entry codes, each followed by a line break, then `}`, parse as entries from `p` on.
proof fn lemma_lines_entries(cs: Seq<Seq<char>>, es: Seq<SpecEntry>, t: Seq<char>, p: int)
    requires
        cs.len() == es.len(),
        forall|i: int| 0 <= i < cs.len() ==> is_entry_code(#[trigger] cs[i], es[i]),
        0 <= p,
        p + lines_front(cs).len() < t.len(),
        t.subrange(p, p + lines_front(cs).len()) == lines_front(cs),
        t[p + lines_front(cs).len()] == '}',
    ensures
        parse_entries(t, p) matches Some((es2, _, close)) && es2 == es && close == p
            + lines_front(cs).len() + 1,
    decreases cs.len(),
{
    let n = lines_front(cs).len() as int;
    if cs.len() == 0 {
        assert(skip_space(t, p) == p);
    } else {
        let c = cs[0];
        let rest = cs.drop_first();
        assert(is_entry_code(cs[0], es[0]));
        lemma_entry_code_head(c, es[0]);
        assert(lines_front(cs) == c + seq!['\n'] + lines_front(rest));
        let q = p + c.len();
        assert forall|k: int| 0 <= k < c.len() implies t[k + p] == #[trigger] c[k] by {
            assert(t.subrange(p, p + n)[k] == lines_front(cs)[k]);
        }
        assert(t[q] == '\n') by {
            assert(t.subrange(p, p + n)[c.len() as int] == lines_front(cs)[c.len() as int]);
        }
        assert(t[p] == c[0]);
        assert(t[p + 1] == c[1]);
        lemma_skip_none(t, p);
        assert(same(c, t, 0, c.len() as int, p));
        lemma_frame_entry(c, t, 0, p);
        let rn = lines_front(rest).len() as int;
        assert(t.subrange(q + 1, q + 1 + rn) =~= lines_front(rest)) by {
            assert forall|k: int| 0 <= k < rn implies t.subrange(q + 1, q + 1 + rn)[k]
                == lines_front(rest)[k] by {
                assert(t.subrange(p, p + n)[c.len() + 1 + k] == lines_front(cs)[c.len() + 1 + k]);
            }
        }
        assert forall|i: int| 0 <= i < rest.len() implies is_entry_code(
            #[trigger] rest[i],
            es.drop_first()[i],
        ) by {
            assert(rest[i] == cs[i + 1]);
        }
        lemma_lines_entries(rest, es.drop_first(), t, q + 1);
        // After the entry, the line break is passed over.
        lemma_skip_space(t, q + 1);
        if rest.len() == 0 {
            assert(skip_space(t, q + 1) == q + 1);
        } else {
            lemma_entry_code_head(rest[0], es.drop_first()[0]);
            assert(t[q + 1] == rest[0][0]) by {
                assert(t.subrange(q + 1, q + 1 + rn)[0] == lines_front(rest)[0]);
            }
            assert(t[q + 2] == rest[0][1]) by {
                assert(t.subrange(q + 1, q + 1 + rn)[1] == lines_front(rest)[1]);
            }
            lemma_skip_none(t, q + 1);
        }
        assert(skip_space(t, q) == skip_space(t, q + 1));
        lemma_entries_from_stop(t, q, q + 1);
        assert(seq![es[0]] + es.drop_first() =~= es);
    }
}

/// Law: entry codes written as a dictionary file parse back to exactly those entries.
pub proof fn law_dict_text_reparses(cs: Seq<Seq<char>>, es: Seq<SpecEntry>)
    requires
        cs.len() == es.len(),
        forall|i: int| 0 <= i < cs.len() ==> is_entry_code(#[trigger] cs[i], es[i]),
    ensures
        parse_root(Root::Dict, dict_text(cs)) matches Some(slice) && slice.value == SpecValue::Dict(
            es,
        ),
{
    let t = dict_text(cs);
    lemma_lines_front(cs);
    let n = lines_front(cs).len() as int;
    assert(t.subrange(2, 2 + n) =~= lines_front(cs));
    assert(t[2 + n] == '}');
    lemma_lines_entries(cs, es, t, 2);
    lemma_skip_space(t, 2);
    assert(skip_space(t, 1) == skip_space(t, 2));
    lemma_entries_from_stop(t, 1, 2);
}

/// A dictionary's entries, copied with what lies between them, parse the same when
/// followed by space and `}` in another text.
proof fn lemma_entries_copied(s: Seq<char>, t: Seq<char>, k: int, d: int, c: int)
    requires
        0 <= k <= s.len(),
        skip_space(s, k) == k,
        parse_entries(s, k) matches Some((es, last, _)) && es.len() > 0 && same(
            s,
            t,
            k,
            last,
            d,
        ),
        0 <= (parse_entries(s, k)->0).1 + d <= t.len(),
        skip_space(t, (parse_entries(s, k)->0).1 + d) == c,
        0 <= c < t.len(),
        t[c] == '}',
    ensures
        parse_entries(t, k + d) == Some(
            ((parse_entries(s, k)->0).0, (parse_entries(s, k)->0).1 + d, c + 1),
        ),
    decreases s.len() - k,
{
    lemma_ends_entries(s, k);
    let last = (parse_entries(s, k)->0).1;
    lemma_skip_result(s, k);
    lemma_ends_entry(s, k);
    let m = (parse_entry(s, k)->0).1;
    lemma_ends_entries(s, m);
    let rest = (parse_entries(s, m)->0).0;
    // The entry at `k`.
    if s[k] == '/' {
        lemma_entry_head(s, k);
    }
    if rest.len() == 0 {
        assert(last == m);
    } else {
        assert(m < last);
    }
    if s[k] == '/' {
        lemma_same_sub(s, t, k, last, d, k, k + 2);
    } else {
        lemma_same_sub(s, t, k, last, d, k, k + 1);
    }
    lemma_frame_skip(s, t, k, d);
    assert(t[k + d] == s[k]);
    lemma_same_sub(s, t, k, last, d, k, m);
    lemma_frame_entry(s, t, k, d);
    // What follows it.
    if rest.len() == 0 {
        lemma_skip_space(t, m + d);
        assert(parse_entries(t, m + d) == Some((Seq::<SpecEntry>::empty(), c, c + 1)));
    } else {
        lemma_skip_space(s, m);
        let k2 = skip_space(s, m);
        lemma_skip_idem(s, m);
        lemma_entries_from_stop(s, m, k2);
        lemma_skip_result(s, m);
        lemma_ends_entry(s, k2);
        if s[k2] == '/' {
            lemma_entry_head(s, k2);
            lemma_same_sub(s, t, k, last, d, m, k2 + 2);
        } else {
            lemma_same_sub(s, t, k, last, d, m, k2 + 1);
        }
        lemma_frame_skip(s, t, m, d);
        lemma_same_sub(s, t, k, last, d, k2, last);
        lemma_entries_copied(s, t, k2, d, c);
        lemma_skip_space(t, m + d);
        lemma_skip_space(t, k2 + d);
        lemma_frame_skip(s, t, k2, d);
        lemma_entries_from_stop(t, m + d, k2 + d);
    }
}

/// The text of a dictionary file with one code: `{`, line break, the code, line break,
/// `}`, line break.
proof fn lemma_one_code_text(code: Seq<char>)
    ensures
        ({
            let t = dict_text(seq![code]);
            let n = code.len() as int;
            &&& t.len() == n + 5
            &&& t[0] == '{'
            &&& t[1] == '\n'
            &&& forall|k: int| 0 <= k < n ==> t[k + 2] == #[trigger] code[k]
            &&& t[n + 2] == '\n'
            &&& t[n + 3] == '}'
            &&& t.subrange(2, n + 2) == code
        }),
{
    assert(lines(seq![code]) =~= code + seq!['\n']) by {
        let cs = seq![code];
        assert(cs.drop_last() =~= Seq::<Seq<char>>::empty());
        assert(lines(cs.drop_last()) == Seq::<char>::empty());
        assert(cs.last() == code);
        assert(lines(cs) == lines(cs.drop_last()) + cs.last() + seq!['\n']);
    }
    let t = dict_text(seq![code]);
    assert(t =~= seq!['{', '\n'] + code + seq!['\n', '}', '\n']);
    assert(t.subrange(2, code.len() + 2int) =~= code);
}

/// Law: a dictionary's code (its entries and what lies between them), written as a
/// dictionary file, parses back to that same dictionary.
pub proof fn law_dict_code_reparses(s: Seq<char>, i: int)
    requires
        0 <= i <= s.len(),
        parse_dict(s, i) is Some,
    ensures
        parse_root(Root::Dict, dict_text(seq![(parse_dict(s, i)->0).0.code])) == Some(
            (parse_dict(s, i)->0).0,
        ),
        parse_dict(dict_text(seq![(parse_dict(s, i)->0).0.code]), 0) == Some(
            ((parse_dict(s, i)->0).0, (parse_dict(s, i)->0).0.code.len() + 4int),
        ),
{
    let sl = (parse_dict(s, i)->0).0;
    let (es, last, close) = parse_entries(s, i + 1)->0;
    let code = sl.code;
    let t = dict_text(seq![code]);
    let n = code.len() as int;
    lemma_one_code_text(code);
    lemma_ends_entries(s, i + 1);
    if es.len() == 0 {
        assert(skip_space(t, 3) == 3);
        assert(skip_space(t, 2) == 3);
        assert(skip_space(t, 1) == 3);
    } else {
        let k0 = skip_space(s, i + 1);
        lemma_dict_code_entries(s, i, t);
        assert(skip_space(t, n + 3) == n + 3);
        assert(skip_space(t, n + 2) == n + 3);
        lemma_entries_copied(s, t, k0, 2 - k0, n + 3);
        lemma_entries_from_stop(t, 1, 2);
    }
}

/// In the file written from a non-empty dictionary's code, the entries start right after
/// the first line break, as they did in the dictionary.
proof fn lemma_dict_code_entries(s: Seq<char>, i: int, t: Seq<char>)
    requires
        0 <= i <= s.len(),
        parse_dict(s, i) is Some,
        (parse_entries(s, i + 1)->0).0.len() > 0,
        t == dict_text(seq![(parse_dict(s, i)->0).0.code]),
    ensures
        ({
            let k0 = skip_space(s, i + 1);
            let last = (parse_entries(s, i + 1)->0).1;
            &&& 0 <= k0 <= s.len()
            &&& skip_space(s, k0) == k0
            &&& parse_entries(s, k0) == parse_entries(s, i + 1)
            &&& same(s, t, k0, last, 2 - k0)
            &&& skip_space(t, 1) == 2
            &&& 0 <= last + 2 - k0 <= t.len()
            &&& last + 2 - k0 == (parse_dict(s, i)->0).0.code.len() + 2
        }),
{
    let code = (parse_dict(s, i)->0).0.code;
    let (es, last, close) = parse_entries(s, i + 1)->0;
    let k0 = skip_space(s, i + 1);
    let d = 2 - k0;
    let n = code.len() as int;
    lemma_one_code_text(code);
    lemma_ends_entries(s, i + 1);
    lemma_skip_space(s, i + 1);
    lemma_skip_idem(s, i + 1);
    lemma_entries_from_stop(s, i + 1, k0);
    assert(code == s.subrange(k0, last));
    assert forall|k: int| k0 <= k < last implies t[k + d] == #[trigger] s[k] by {
        assert(t[(k - k0) + 2] == code[k - k0]);
    }
    lemma_skip_result(s, i + 1);
    lemma_ends_entry(s, k0);
    if s[k0] == '/' {
        lemma_entry_head(s, k0);
        lemma_same_sub(s, t, k0, last, d, k0, k0 + 2);
    } else {
        lemma_same_sub(s, t, k0, last, d, k0, k0 + 1);
    }
    lemma_frame_skip(s, t, k0, d);
}

/// A string that can be written without quotes and read back: unquoted-string characters
/// only, at least one, and no `//` at the start.
pub open spec fn is_bare_name(n: Seq<char>) -> bool {
    &&& n.len() > 0
    &&& forall|k: int| 0 <= k < n.len() ==> is_bare(#[trigger] n[k])
    &&& !starts_with2(n, 0, '/', '/')
}

/// The value that a name written without quotes parses to.
pub open spec fn name_slice(n: Seq<char>) -> SpecSlice {
    SpecSlice { value: SpecValue::String(n), code: n }
}

/// The values after the first of an array file: each preceded by `sep`, then `tail`.
pub open spec fn items_sep(rest: Seq<Seq<char>>, sep: Seq<char>, tail: Seq<char>) -> Seq<char>
    decreases rest.len(),
{
    if rest.len() == 0 {
        tail
    } else {
        sep + rest[0] + items_sep(rest.drop_first(), sep, tail)
    }
}

proof fn lemma_items_sep_push(rest: Seq<Seq<char>>, sep: Seq<char>, x: Seq<char>, tail: Seq<char>)
    ensures
        items_sep(rest.push(x), sep, tail) == items_sep(rest, sep, sep + x + tail),
    decreases rest.len(),
{
    if rest.len() == 0 {
        let r = rest.push(x);
        assert(r.drop_first() =~= Seq::<Seq<char>>::empty());
        assert(r[0] == x);
        assert(items_sep(r.drop_first(), sep, tail) == tail);
        assert(items_sep(r, sep, tail) == sep + r[0] + items_sep(r.drop_first(), sep, tail));
        assert(items_sep(rest, sep, sep + x + tail) == sep + x + tail);
    } else {
        assert(rest.push(x).drop_first() =~= rest.drop_first().push(x));
        assert(rest.push(x)[0] == rest[0]);
        lemma_items_sep_push(rest.drop_first(), sep, x, tail);
        let r = rest.push(x);
        assert(items_sep(r, sep, tail) == sep + r[0] + items_sep(r.drop_first(), sep, tail));
        assert(items_sep(rest, sep, sep + x + tail) == sep + rest[0] + items_sep(
            rest.drop_first(),
            sep,
            sep + x + tail,
        ));
    }
}

proof fn lemma_joined_front(ns: Seq<Seq<char>>, sep: Seq<char>, tail: Seq<char>)
    requires
        ns.len() > 0,
    ensures
        joined(ns, sep) + tail == ns[0] + items_sep(ns.drop_first(), sep, tail),
    decreases ns.len(),
{
    if ns.len() == 1 {
        assert(ns.drop_first() =~= Seq::<Seq<char>>::empty());
    } else {
        let front = ns.drop_last();
        lemma_joined_front(front, sep, sep + ns.last() + tail);
        assert(front.drop_first().push(ns.last()) =~= ns.drop_first());
        lemma_items_sep_push(front.drop_first(), sep, ns.last(), tail);
        assert(joined(ns, sep) + tail =~= joined(front, sep) + (sep + ns.last() + tail));
    }
}

/// An unquoted run ends where the unquoted-string characters end.
proof fn lemma_bare_run(t: Seq<char>, p: int, q: int)
    requires
        0 <= p <= q <= t.len(),
        forall|k: int| p <= k < q ==> is_bare(#[trigger] t[k]),
        q == t.len() || !is_bare(t[q]),
    ensures
        bare_end(t, p) == q,
    decreases q - p,
{
    if p < q {
        lemma_bare_run(t, p + 1, q);
    }
}

/// A name written at `p`, followed by `,` or a line break, parses as that name.
proof fn lemma_name_at(t: Seq<char>, p: int, n: Seq<char>)
    requires
        is_bare_name(n),
        0 <= p,
        p + n.len() < t.len(),
        t.subrange(p, p + n.len()) == n,
        t[p + n.len()] == ',' || t[p + n.len()] == '\n',
    ensures
        skip_space(t, p) == p,
        parse_value(t, p) == Some((name_slice(n), p + n.len())),
{
    let q = p + n.len();
    assert forall|k: int| p <= k < q implies is_bare(#[trigger] t[k]) by {
        assert(t[k] == t.subrange(p, q)[k - p]);
    }
    assert(t[p] == n[0]) by {
        assert(t.subrange(p, q)[0] == n[0]);
    }
    if n.len() > 1 {
        assert(t[p + 1] == n[1]) by {
            assert(t.subrange(p, q)[1] == n[1]);
        }
    }
    lemma_skip_none(t, p);
    lemma_bare_run(t, p, q);
    assert(t.subrange(p, q) == n);
}

/// The values after the first of an array file of names parse as those names.
proof fn lemma_items_names(rest: Seq<Seq<char>>, t: Seq<char>, e: int)
    requires
        forall|i: int| 0 <= i < rest.len() ==> is_bare_name(#[trigger] rest[i]),
        0 <= e,
        e + items_sep(rest, seq![',', '\n'], seq!['\n', ')']).len() <= t.len(),
        t.subrange(e, e + items_sep(rest, seq![',', '\n'], seq!['\n', ')']).len()) == items_sep(
            rest, seq![',', '\n'],
            seq!['\n', ')'],
        ),
    ensures
        parse_items(t, e) matches Some((vs, _, close)) && vs == rest.map_values(
            |n: Seq<char>| name_slice(n),
        ) && close == e + items_sep(rest, seq![',', '\n'], seq!['\n', ')']).len(),
    decreases rest.len(),
{
    let g = items_sep(rest, seq![',', '\n'], seq!['\n', ')']);
    let len = g.len() as int;
    assert forall|k: int| 0 <= k < len implies t[e + k] == #[trigger] g[k] by {
        assert(t.subrange(e, e + len)[k] == g[k]);
    }
    if rest.len() == 0 {
        assert(t[e] == '\n');
        assert(t[e + 1] == ')');
        assert(skip_space(t, e + 1) == e + 1);
        assert(skip_space(t, e) == e + 1);
        assert(rest.map_values(|n: Seq<char>| name_slice(n)) =~= Seq::<SpecSlice>::empty());
    } else {
        let n = rest[0];
        let r2 = rest.drop_first();
        let g2 = items_sep(r2, seq![',', '\n'], seq!['\n', ')']);
        assert(g == seq![',', '\n'] + n + g2);
        let p = e + 2;
        let q = p + n.len();
        assert(g[0] == ',');
        assert(g[1] == '\n');
        assert(t[e] == ',');
        assert(t[e + 1] == '\n');
        assert(skip_space(t, e) == e);
        assert(t.subrange(p, q) =~= n) by {
            assert forall|k: int| 0 <= k < n.len() implies t.subrange(p, q)[k] == n[k] by {
                assert(g[2 + k] == n[k]);
            }
        }
        assert(g2.len() >= 1) by {
            if r2.len() == 0 {
            } else {
                assert(g2 == seq![',', '\n'] + r2[0] + items_sep(r2.drop_first(), seq![',', '\n'], seq!['\n', ')']));
            }
        }
        assert(t[q] == g2[0]) by {
            assert(g[2 + n.len() as int] == g2[0]);
        }
        assert(g2[0] == ',' || g2[0] == '\n') by {
            if r2.len() > 0 {
                assert(g2 == seq![',', '\n'] + r2[0] + items_sep(r2.drop_first(), seq![',', '\n'], seq!['\n', ')']));
            }
        }
        assert(is_bare_name(rest[0]));
        lemma_name_at(t, p, n);
        assert(skip_space(t, e + 1) == p);
        assert(t.subrange(q, q + g2.len()) =~= g2) by {
            assert forall|k: int| 0 <= k < g2.len() implies t.subrange(q, q + g2.len())[k]
                == g2[k] by {
                assert(g[2 + n.len() + k] == g2[k]);
            }
        }
        assert forall|i: int| 0 <= i < r2.len() implies is_bare_name(#[trigger] r2[i]) by {
            assert(r2[i] == rest[i + 1]);
        }
        lemma_items_names(r2, t, q);
        assert(seq![name_slice(n)] + r2.map_values(|x: Seq<char>| name_slice(x)) =~= rest.map_values(
            |x: Seq<char>| name_slice(x),
        ));
    }
}

/// An array file with at least one value: `(`, line break, the first value, the rest.
proof fn lemma_array_text_front(ns: Seq<Seq<char>>)
    requires
        ns.len() > 0,
    ensures
        array_text(ns) == seq!['(', '\n'] + ns[0] + items_sep(ns.drop_first(), seq![',', '\n'], seq!['\n', ')']),
{
    let tail = seq!['\n', ')'];
    let j = joined(ns, seq![',', '\n']);
    lemma_joined_front(ns, seq![',', '\n'], tail);
    assert(array_text(ns) == seq!['(', '\n'] + (j + seq!['\n']) + seq![')']);
    assert((j + seq!['\n']) + seq![')'] =~= j + tail);
    assert(seq!['(', '\n'] + (j + seq!['\n']) + seq![')'] =~= seq!['(', '\n'] + (j + tail));
    assert(seq!['(', '\n'] + (ns[0] + items_sep(ns.drop_first(), seq![',', '\n'], tail)) =~= seq!['(', '\n']
        + ns[0] + items_sep(ns.drop_first(), seq![',', '\n'], tail));
}

/// Law: names that can stand unquoted, written as an array file, parse back to those names.
pub proof fn law_array_text_reparses(ns: Seq<Seq<char>>)
    requires
        forall|i: int| 0 <= i < ns.len() ==> is_bare_name(#[trigger] ns[i]),
    ensures
        parse_root(Root::Array, array_text(ns)) matches Some(slice) && slice.value
            == SpecValue::Array(ns.map_values(|n: Seq<char>| name_slice(n))),
{
    if ns.len() == 0 {
        let t = array_text(ns);
        assert(t =~= seq!['(', '\n', ')']);
        assert(skip_space(t, 2) == 2);
        assert(skip_space(t, 1) == 2);
        assert(ns.map_values(|n: Seq<char>| name_slice(n)) =~= Seq::<SpecSlice>::empty());
    } else {
        lemma_array_names_nonempty(ns);
    }
}

proof fn lemma_array_names_nonempty(ns: Seq<Seq<char>>)
    requires
        ns.len() > 0,
        forall|i: int| 0 <= i < ns.len() ==> is_bare_name(#[trigger] ns[i]),
    ensures
        parse_array(array_text(ns), 0) matches Some((slice, _)) && slice.value == SpecValue::Array(
            ns.map_values(|n: Seq<char>| name_slice(n)),
        ),
{
    let t = array_text(ns);
    let n = ns[0];
    let rest = ns.drop_first();
    let tail = seq!['\n', ')'];
    let g = items_sep(rest, seq![',', '\n'], tail);
    lemma_array_text_front(ns);
    let q = 2 + n.len() as int;
    assert(t.subrange(2, q) =~= n);
    assert(t.subrange(q, q + g.len() as int) =~= g);
    assert(g.len() >= 1 && (g[0] == ',' || g[0] == '\n')) by {
        if rest.len() > 0 {
            assert(g == seq![',', '\n'] + rest[0] + items_sep(rest.drop_first(), seq![',', '\n'], tail));
        }
    }
    assert(t[q] == g[0]);
    assert(is_bare_name(ns[0]));
    lemma_name_at(t, 2, n);
    assert(t[1] == '\n');
    assert(skip_space(t, 1) == 2);
    assert forall|i: int| 0 <= i < rest.len() implies is_bare_name(#[trigger] rest[i]) by {
        assert(rest[i] == ns[i + 1]);
    }
    lemma_items_names(rest, t, q);
    assert(seq![name_slice(n)] + rest.map_values(|x: Seq<char>| name_slice(x)) =~= ns.map_values(
        |x: Seq<char>| name_slice(x),
    ));
}

/// An array's further values, copied with what lies between them, parse the same when
/// followed by space and `)` in another text.
proof fn lemma_items_copied(s: Seq<char>, t: Seq<char>, e: int, d: int, c: int)
    requires
        0 <= e <= s.len(),
        parse_items(s, e) matches Some((_, l, _)) && same(s, t, e, l, d) && 0 <= l + d < t.len()
            && is_space(t[l + d]) && skip_space(t, l + d) == c,
        0 <= c < t.len(),
        t[c] == ')',
    ensures
        parse_items(t, e + d) == Some(((parse_items(s, e)->0).0, (parse_items(s, e)->0).1 + d, c + 1)),
    decreases s.len() - e,
{
    lemma_ends_items(s, e);
    let (vs, l, close) = parse_items(s, e)->0;
    let k = skip_space(s, e);
    lemma_skip_space(s, e);
    if vs.len() == 0 {
        assert(l == e);
        lemma_skip_space(t, e + d);
    } else {
        assert(s[k] == ',');
        lemma_skip_space(s, k + 1);
        let k2 = skip_space(s, k + 1);
        lemma_ends_value(s, k2);
        let e2 = (parse_value(s, k2)->0).1;
        lemma_ends_items(s, e2);
        assert(e2 <= l);
        lemma_same_sub(s, t, e, l, d, e, k + 1);
        lemma_frame_skip(s, t, e, d);
        assert(t[k + d] == s[k]);
        lemma_same_sub(s, t, e, l, d, k + 1, k2 + 1);
        if s[k2] == '/' {
            lemma_slash_head(s, k2, e2);
            if k2 + 2 <= l {
                lemma_same_sub(s, t, e, l, d, k + 1, k2 + 2);
            }
        }
        lemma_frame_skip(s, t, k + 1, d);
        assert(t[k2 + d] == s[k2]);
        lemma_same_sub(s, t, e, l, d, k2, e2);
        if is_bare(s[k2]) && e2 < l {
            lemma_bare_end(s, k2);
            assert(t[e2 + d] == s[e2]);
        }
        lemma_frame_value(s, t, k2, d);
        lemma_same_sub(s, t, e, l, d, e2, l);
        lemma_items_copied(s, t, e2, d, c);
    }
}

/// An entry whose value is an array: the key, ` = (`, a line break, the array's code, a
/// line break, and `);`.
pub open spec fn keyed_array_code(key: Seq<char>, code: Seq<char>) -> Seq<char> {
    key + seq![' ', '=', ' ', '(', '\n'] + code + seq!['\n', ')', ';']
}

proof fn lemma_keyed_array_chars(key: Seq<char>, code: Seq<char>)
    ensures
        ({
            let t = keyed_array_code(key, code);
            let n = key.len() as int;
            let a = code.len() as int;
            &&& t.len() == n + a + 8
            &&& forall|k: int| 0 <= k < n ==> t[k] == #[trigger] key[k]
            &&& t[n] == ' '
            &&& t[n + 1] == '='
            &&& t[n + 2] == ' '
            &&& t[n + 3] == '('
            &&& t[n + 4] == '\n'
            &&& forall|k: int| 0 <= k < a ==> t[n + 5 + k] == #[trigger] code[k]
            &&& t[n + a + 5] == '\n'
            &&& t[n + a + 6] == ')'
            &&& t[n + a + 7] == ';'
            &&& t.subrange(n + 5, n + 5 + a) == code
            &&& t.subrange(0, n) == key
        }),
{
    let t = keyed_array_code(key, code);
    let n = key.len() as int;
    let a = code.len() as int;
    assert(t.subrange(n + 5, n + 5 + a) =~= code);
    assert(t.subrange(0, n) =~= key);
}

/// The key of an entry written as `key = ...`: it parses as that key, and `=` follows.
proof fn lemma_keyed_head(t: Seq<char>, key: Seq<char>)
    requires
        is_bare_name(key),
        key.len() + 4 < t.len(),
        t.subrange(0, key.len() as int) == key,
        t[key.len() as int] == ' ',
        t[key.len() + 1int] == '=',
        t[key.len() + 2int] == ' ',
    ensures
        parse_string(t, 0) == Some((name_slice(key), key.len() as int)),
        skip_space(t, key.len() as int) == key.len() + 1,
        skip_space(t, key.len() + 2int) == skip_space(t, key.len() + 3int),
        !starts_with2(t, 0, '/', '/'),
{
    let n = key.len() as int;
    assert forall|k: int| 0 <= k < n implies is_bare(#[trigger] t[k]) by {
        assert(t.subrange(0, n)[k] == key[k]);
    }
    lemma_bare_run(t, 0, n);
    assert(t[0] == key[0]) by {
        assert(t.subrange(0, n)[0] == key[0]);
    }
    if n > 1 {
        assert(t[1] == key[1]) by {
            assert(t.subrange(0, n)[1] == key[1]);
        }
    }
    assert(is_space(t[n]));
    assert(skip_space(t, n + 1) == n + 1);
    assert(skip_space(t, n) == n + 1);
}

/// Law: the code of a parsed array, written as the value of an entry whose key can stand
/// unquoted, is that entry written on its own: it parses to the key and the same array.
#[verifier::rlimit(40)]
pub proof fn law_keyed_array_code(key: Seq<char>, s: Seq<char>, i: int)
    requires
        is_bare_name(key),
        0 <= i <= s.len(),
        parse_array(s, i) is Some,
    ensures
        is_entry_code(
            keyed_array_code(key, (parse_array(s, i)->0).0.code),
            SpecEntry {
                key: key,
                value: (parse_array(s, i)->0).0,
                code: keyed_array_code(key, (parse_array(s, i)->0).0.code),
            },
        ),
{
    let arr = (parse_array(s, i)->0).0;
    let code = arr.code;
    let t = keyed_array_code(key, code);
    let n = key.len() as int;
    let a = code.len() as int;
    lemma_keyed_array_chars(key, code);
    lemma_keyed_head(t, key);
    assert(t[n + 3] == '(');
    assert(skip_space(t, n + 3) == n + 3);
    lemma_array_copied(s, i, t, n + 3);
    let semi = n + a + 7;
    assert(skip_space(t, n + a + 7) == semi);
    assert(t.subrange(0, semi + 1) =~= t);
}

/// A parsed array's code, written as `(`, line break, the code, line break, `)` at `p` in
/// another text, parses there to the same array.
proof fn lemma_array_copied(s: Seq<char>, i: int, t: Seq<char>, p: int)
    requires
        0 <= i <= s.len(),
        parse_array(s, i) is Some,
        0 <= p,
        p + (parse_array(s, i)->0).0.code.len() + 4 <= t.len(),
        t[p] == '(',
        t[p + 1] == '\n',
        t.subrange(p + 2, p + 2 + (parse_array(s, i)->0).0.code.len()) == (parse_array(
            s,
            i,
        )->0).0.code,
        t[p + 2 + (parse_array(s, i)->0).0.code.len()] == '\n',
        t[p + 3 + (parse_array(s, i)->0).0.code.len()] == ')',
    ensures
        parse_value(t, p) == Some(
            ((parse_array(s, i)->0).0, p + 4 + (parse_array(s, i)->0).0.code.len()),
        ),
{
    let arr = (parse_array(s, i)->0).0;
    let code = arr.code;
    let a = code.len() as int;
    lemma_skip_space(s, i + 1);
    let j = skip_space(s, i + 1);
    assert(t[p + 2 + a] == '\n');
    if 0 <= j < s.len() && s[j] == ')' {
        assert(a == 0);
        assert(skip_space(t, p + 3) == p + 3);
        assert(skip_space(t, p + 2) == p + 3);
        assert(skip_space(t, p + 1) == p + 3);
    } else {
        lemma_ends_value(s, j);
        let e = (parse_value(s, j)->0).1;
        lemma_ends_items(s, e);
        let (rest, l, close) = parse_items(s, e)->0;
        let d = p + 2 - j;
        assert(code == s.subrange(j, l));
        assert(same(s, t, j, l, d)) by {
            assert forall|k: int| j <= k < l implies t[k + d] == #[trigger] s[k] by {
                assert(t.subrange(p + 2, p + 2 + a)[k - j] == code[k - j]);
            }
        }
        // The first value.
        lemma_skip_result(s, i + 1);
        lemma_same_sub(s, t, j, l, d, j, j + 1);
        if s[j] == '/' {
            lemma_slash_head(s, j, e);
            if j + 2 <= l {
                lemma_same_sub(s, t, j, l, d, j, j + 2);
            }
        }
        lemma_frame_skip(s, t, j, d);
        lemma_skip_idem(s, i + 1);
        assert(skip_space(t, p + 1) == p + 2);
        lemma_same_sub(s, t, j, l, d, j, e);
        if is_bare(s[j]) && e < l {
            lemma_bare_end(s, j);
            assert(t[e + d] == s[e]);
        }
        lemma_frame_value(s, t, j, d);
        // The further values.
        lemma_same_sub(s, t, j, l, d, e, l);
        assert(skip_space(t, p + 3 + a) == p + 3 + a);
        assert(skip_space(t, p + 2 + a) == p + 3 + a);
        lemma_items_copied(s, t, e, d, p + 3 + a);
        lemma_same_sub(s, t, j, l, d, j, l);
    }
}

/// A value written on its own that starts with `{`: `w` is exactly the text of `x`.
pub open spec fn is_dict_code(w: Seq<char>, x: SpecSlice) -> bool {
    &&& w.len() > 0
    &&& w[0] == '{'
    &&& parse_value(w, 0) == Some((x, w.len() as int))
}

/// Values written on their own, each preceded by `,`, then a line break and `)`, parse
/// as those values.
proof fn lemma_items_values(ws: Seq<Seq<char>>, xs: Seq<SpecSlice>, t: Seq<char>, e: int)
    requires
        ws.len() == xs.len(),
        forall|i: int| 0 <= i < ws.len() ==> is_dict_code(#[trigger] ws[i], xs[i]),
        0 <= e,
        e + items_sep(ws, seq![','], seq!['\n', ')']).len() <= t.len(),
        t.subrange(e, e + items_sep(ws, seq![','], seq!['\n', ')']).len()) == items_sep(
            ws,
            seq![','],
            seq!['\n', ')'],
        ),
    ensures
        parse_items(t, e) matches Some((vs, _, close)) && vs == xs && close == e + items_sep(
            ws,
            seq![','],
            seq!['\n', ')'],
        ).len(),
    decreases ws.len(),
{
    let g = items_sep(ws, seq![','], seq!['\n', ')']);
    let len = g.len() as int;
    assert forall|k: int| 0 <= k < len implies t[e + k] == #[trigger] g[k] by {
        assert(t.subrange(e, e + len)[k] == g[k]);
    }
    if ws.len() == 0 {
        assert(g[0] == '\n');
        assert(g[1] == ')');
        assert(skip_space(t, e + 1) == e + 1);
        assert(skip_space(t, e) == e + 1);
    } else {
        let w = ws[0];
        let r2 = ws.drop_first();
        let g2 = items_sep(r2, seq![','], seq!['\n', ')']);
        assert(g == seq![','] + w + g2);
        assert(is_dict_code(ws[0], xs[0]));
        let p = e + 1;
        let q = p + w.len();
        assert(g[0] == ',');
        assert(t[e] == ',');
        assert(skip_space(t, e) == e);
        assert(g[1] == w[0]);
        assert(t[p] == '{');
        assert(skip_space(t, p) == p);
        assert(same(w, t, 0, w.len() as int, p)) by {
            assert forall|k: int| 0 <= k < w.len() implies t[k + p] == #[trigger] w[k] by {
                assert(g[1 + k] == w[k]);
            }
        }
        lemma_frame_value(w, t, 0, p);
        assert(t.subrange(q, q + g2.len()) =~= g2) by {
            assert forall|k: int| 0 <= k < g2.len() implies t.subrange(q, q + g2.len())[k]
                == g2[k] by {
                assert(g[1 + w.len() + k] == g2[k]);
            }
        }
        assert forall|i: int| 0 <= i < r2.len() implies is_dict_code(
            #[trigger] r2[i],
            xs.drop_first()[i],
        ) by {
            assert(r2[i] == ws[i + 1]);
        }
        lemma_items_values(r2, xs.drop_first(), t, q);
        assert(seq![xs[0]] + xs.drop_first() =~= xs);
    }
}

/// Values written on their own and starting with `{`, joined by commas between `(`, a
/// line break, a line break and `)` at `p`, parse there as an array of those values.
proof fn lemma_values_array(ws: Seq<Seq<char>>, xs: Seq<SpecSlice>, t: Seq<char>, p: int)
    requires
        ws.len() == xs.len(),
        forall|i: int| 0 <= i < ws.len() ==> is_dict_code(#[trigger] ws[i], xs[i]),
        0 <= p,
        p + joined(ws, seq![',']).len() + 4 <= t.len(),
        t[p] == '(',
        t[p + 1] == '\n',
        t.subrange(p + 2, p + 2 + joined(ws, seq![',']).len()) == joined(ws, seq![',']),
        t[p + 2 + joined(ws, seq![',']).len()] == '\n',
        t[p + 3 + joined(ws, seq![',']).len()] == ')',
    ensures
        parse_value(t, p) matches Some((v, end)) && v.value == SpecValue::Array(xs) && end == p
            + 4 + joined(ws, seq![',']).len(),
{
    let j = joined(ws, seq![',']);
    let a = j.len() as int;
    if ws.len() == 0 {
        assert(a == 0);
        assert(skip_space(t, p + 3) == p + 3);
        assert(skip_space(t, p + 2) == p + 3);
        assert(skip_space(t, p + 1) == p + 3);
        assert(xs =~= Seq::<SpecSlice>::empty());
    } else {
        let tail = seq!['\n', ')'];
        lemma_joined_front(ws, seq![','], tail);
        let w = ws[0];
        let g = items_sep(ws.drop_first(), seq![','], tail);
        assert(is_dict_code(ws[0], xs[0]));
        assert(j + tail == w + g);
        assert(t.subrange(p + 2, p + 4 + a) =~= j + tail);
        assert(t[p + 2] == (j + tail)[0]);
        assert(t[p + 2] == '{');
        assert(skip_space(t, p + 2) == p + 2);
        assert(skip_space(t, p + 1) == p + 2);
        assert(same(w, t, 0, w.len() as int, p + 2)) by {
            assert forall|k: int| 0 <= k < w.len() implies t[k + p + 2] == #[trigger] w[k] by {
                assert(t.subrange(p + 2, p + 4 + a)[k] == (w + g)[k]);
            }
        }
        lemma_frame_value(w, t, 0, p + 2);
        let q = p + 2 + w.len();
        assert(t.subrange(q, q + g.len()) =~= g) by {
            assert forall|k: int| 0 <= k < g.len() implies t.subrange(q, q + g.len())[k] == g[k] by {
                assert(t.subrange(p + 2, p + 4 + a)[w.len() + k] == (w + g)[w.len() + k]);
            }
        }
        assert forall|i: int| 0 <= i < ws.drop_first().len() implies is_dict_code(
            #[trigger] ws.drop_first()[i],
            xs.drop_first()[i],
        ) by {
            assert(ws.drop_first()[i] == ws[i + 1]);
        }
        lemma_items_values(ws.drop_first(), xs.drop_first(), t, q);
        assert(seq![xs[0]] + xs.drop_first() =~= xs);
        assert(w.len() + g.len() == a + 2);
        assert(parse_value(t, p + 2) == Some((xs[0], q)));
        assert(parse_items(t, q) is Some);
        assert((parse_items(t, q)->0).2 == p + 4 + a);
        assert(parse_array(t, p) is Some);
        assert((parse_array(t, p)->0).1 == p + 4 + a);
    }
}

/// Law: values written on their own and starting with `{`, joined by commas as the array
/// value of an entry whose key can stand unquoted, make an entry written on its own, with
/// that key and an array of those values.
pub proof fn law_keyed_values_code(key: Seq<char>, ws: Seq<Seq<char>>, xs: Seq<SpecSlice>)
    requires
        is_bare_name(key),
        ws.len() == xs.len(),
        forall|i: int| 0 <= i < ws.len() ==> is_dict_code(#[trigger] ws[i], xs[i]),
    ensures
        ({
            let c = keyed_array_code(key, joined(ws, seq![',']));
            &&& parse_entry(c, 0) is Some
            &&& is_entry_code(c, (parse_entry(c, 0)->0).0)
            &&& (parse_entry(c, 0)->0).0.key == key
            &&& (parse_entry(c, 0)->0).0.value.value == SpecValue::Array(xs)
        }),
{
    let j = joined(ws, seq![',']);
    let t = keyed_array_code(key, j);
    let n = key.len() as int;
    let a = j.len() as int;
    lemma_keyed_array_chars(key, j);
    lemma_keyed_head(t, key);
    assert(t[n + 3] == '(');
    assert(skip_space(t, n + 3) == n + 3);
    lemma_values_array(ws, xs, t, n + 3);
    assert(skip_space(t, n + a + 7) == n + a + 7);
    assert(t.subrange(0, n + a + 8) =~= t);
}

/// A dictionary's code written as a dictionary file, cut right after its closing brace, is
/// that dictionary written on its own.
pub proof fn lemma_dict_code_dict_value(s: Seq<char>, i: int)
    requires
        0 <= i <= s.len(),
        parse_dict(s, i) is Some,
    ensures
        is_dict_code(
            dict_text(seq![(parse_dict(s, i)->0).0.code]).take(
                (parse_dict(s, i)->0).0.code.len() + 4int,
            ),
            (parse_dict(s, i)->0).0,
        ),
{
    let c = (parse_dict(s, i)->0).0.code;
    let t = dict_text(seq![c]);
    let w = t.take(c.len() + 4int);
    law_dict_code_reparses(s, i);
    lemma_one_code_text(c);
    assert(same(t, w, 0, c.len() + 4int, 0));
    crate::framing::lemma_frame_dict(t, w, 0, 0);
}

/// A string read at `j` (where space and comments stop), followed by what the grammar needs
/// next, written as `(`, line break, its text, line break, `)` at `p` in another text: that
/// parses there as an array of that one string, whose code is the string's text.
proof fn lemma_string_copied(s: Seq<char>, j0: int, t: Seq<char>, p: int)
    requires
        0 <= j0 <= s.len(),
        skip_space(s, j0) < s.len(),
        parse_value(s, skip_space(s, j0)) is Some,
        (parse_value(s, skip_space(s, j0))->0).0.value is String,
        skip_space(s, (parse_value(s, skip_space(s, j0))->0).1) < s.len(),
        s[skip_space(s, (parse_value(s, skip_space(s, j0))->0).1)] != '*',
        0 <= p,
        p + (parse_value(s, skip_space(s, j0))->0).0.code.len() + 4 <= t.len(),
        t[p] == '(',
        t[p + 1] == '\n',
        t.subrange(p + 2, p + 2 + (parse_value(s, skip_space(s, j0))->0).0.code.len()) == (
        parse_value(s, skip_space(s, j0))->0).0.code,
        t[p + 2 + (parse_value(s, skip_space(s, j0))->0).0.code.len()] == '\n',
        t[p + 3 + (parse_value(s, skip_space(s, j0))->0).0.code.len()] == ')',
    ensures
        ({
            let sv = (parse_value(s, skip_space(s, j0))->0).0;
            parse_value(t, p) == Some(
                (
                    SpecSlice { value: SpecValue::Array(seq![sv]), code: sv.code },
                    p + 4 + sv.code.len(),
                ),
            )
        }),
{
    let j = skip_space(s, j0);
    let (sv, e) = parse_value(s, j)->0;
    let code = sv.code;
    let a = code.len() as int;
    lemma_skip_space(s, j0);
    lemma_ends_value(s, j);
    assert(s[j] != '{' && s[j] != '(');
    assert(parse_value(s, j) == parse_string(s, j));
    crate::framing::lemma_ends_string(s, j);
    assert(code == s.subrange(j, e));
    let d = p + 2 - j;
    assert(same(s, t, j, e, d)) by {
        assert forall|k: int| j <= k < e implies t[k + d] == #[trigger] s[k] by {
            assert(t.subrange(p + 2, p + 2 + a)[k - j] == code[k - j]);
        }
    }
    lemma_skip_result(s, j0);
    lemma_same_sub(s, t, j, e, d, j, j + 1);
    if s[j] == '/' {
        lemma_skip_space(s, e);
        lemma_slash_head(s, j, e);
        if j + 2 <= e {
            lemma_same_sub(s, t, j, e, d, j, j + 2);
        }
    }
    assert(skip_space(t, p + 2) == p + 2);
    assert(skip_space(t, p + 1) == p + 2);
    if is_bare(s[j]) {
        assert(t[e + d] == '\n');
    }
    lemma_frame_value(s, t, j, d);
    assert(t[p + 2] != ')');
    let e2 = p + 2 + a;
    assert(skip_space(t, e2 + 1) == e2 + 1);
    assert(skip_space(t, e2) == e2 + 1);
    assert(parse_items(t, e2) == Some((Seq::<SpecSlice>::empty(), e2, e2 + 2)));
    assert(seq![sv] + Seq::<SpecSlice>::empty() =~= seq![sv]);
    assert(t.subrange(p + 2, e2) == code);
}

/// Where the value of an entry written on its own starts, and that `;` follows it.
proof fn lemma_entry_value_start(c: Seq<char>, e: SpecEntry) -> (j0: int)
    requires
        is_entry_code(c, e),
    ensures
        0 <= j0 <= c.len(),
        skip_space(c, j0) < c.len(),
        parse_value(c, skip_space(c, j0)) is Some,
        (parse_value(c, skip_space(c, j0))->0).0 == e.value,
        skip_space(c, (parse_value(c, skip_space(c, j0))->0).1) < c.len(),
        c[skip_space(c, (parse_value(c, skip_space(c, j0))->0).1)] == ';',
{
    let ak = (parse_string(c, 0)->0).1;
    let eq = skip_space(c, ak);
    eq + 1
}

/// Law: the text of a string value of an entry, written as the array value of an entry
/// whose key can stand unquoted, is that entry written on its own: it parses to the key and
/// an array of that one string.
#[verifier::rlimit(40)]
pub proof fn law_keyed_string_code(key: Seq<char>, e: SpecEntry)
    requires
        is_bare_name(key),
        is_entry_code(e.code, e),
        e.value.value is String,
    ensures
        is_entry_code(
            keyed_array_code(key, e.value.code),
            SpecEntry {
                key: key,
                value: SpecSlice { value: SpecValue::Array(seq![e.value]), code: e.value.code },
                code: keyed_array_code(key, e.value.code),
            },
        ),
{
    let c = e.code;
    let j0 = lemma_entry_value_start(c, e);
    let code = e.value.code;
    let t = keyed_array_code(key, code);
    let n = key.len() as int;
    let a = code.len() as int;
    lemma_keyed_array_chars(key, code);
    lemma_keyed_head(t, key);
    assert(t[n + 3] == '(');
    assert(skip_space(t, n + 3) == n + 3);
    lemma_string_copied(c, j0, t, n + 3);
    let semi = n + a + 7;
    assert(skip_space(t, n + a + 7) == semi);
    assert(t.subrange(0, semi + 1) =~= t);
}

} // verus!

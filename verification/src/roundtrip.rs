//! What a font keeps when it is split into a package and joined again, and when a package
//! is joined and split again.
use vstd::prelude::*;
use vstd::multiset::Multiset;

use crate::grammar::{
    SpecEntry, SpecSlice, SpecValue, lemma_skip_space, parse_array, parse_dict, parse_entry,
    parse_items, parse_string, parse_value, skip_space,
};
use crate::laws::{
    law_dict_entries_are_codes, is_bare_name, is_dict_code, is_entry_code, keyed_array_code, law_array_text_reparses,
    law_dict_code_reparses, law_dict_text_reparses, law_keyed_array_code, law_keyed_string_code, law_keyed_values_code,
    lemma_dict_code_dict_value, name_slice,
};
use crate::plist::{Root, array_text, dict_text, joined, lines, parse_root};
use crate::unpack::{
    GlyphNameError, UnpackError, codes_of, first_glyph_name, glyph_codes, glyph_records,
    glyphs_code, is_white_space, keyed_codes, law_sort_by_key, lookup, names_of, sort_by_key,
    spec_fontinfo_entries, spec_glyph_name, spec_glyphs_entry, spec_order_names,
    spec_standalone_text, spec_ui_state_entries, spec_unpack, string_of, trim, trim_end,
    trim_start, ui_state_entry,
};
use crate::pack::{
    PackError, SpecParts, add_entry, add_glyph, add_glyphs, display_strings_code, glyph_name_of,
    pack_entries, pack_parts, package_of, spec_glyph_filename, spec_pack,
};
use crate::{KEY_DISPLAY_STRINGS_PACKAGE, KEY_DISPLAY_STRINGS_STANDALONE, KEY_GLYPHS};

verus! {

/// The key and the value of an entry, apart from the text that they are written in.
pub open spec fn key_value(e: SpecEntry) -> (Seq<char>, SpecValue) {
    (e.key, e.value.value)
}

/// The entries with the key `k`, in order.
pub open spec fn entries_with_key(es: Seq<SpecEntry>, k: Seq<char>) -> Seq<SpecEntry>
    decreases es.len(),
{
    if es.len() == 0 {
        seq![]
    } else if es.last().key == k {
        entries_with_key(es.drop_last(), k).push(es.last())
    } else {
        entries_with_key(es.drop_last(), k)
    }
}

/// The entries that a package keeps in its font info: all but the display strings and the
/// glyphs, in order.
pub open spec fn fontinfo_part(es: Seq<SpecEntry>) -> Seq<SpecEntry>
    decreases es.len(),
{
    if es.len() == 0 {
        seq![]
    } else if es.last().key != KEY_DISPLAY_STRINGS_STANDALONE@ && es.last().key != KEY_GLYPHS@ {
        fontinfo_part(es.drop_last()).push(es.last())
    } else {
        fontinfo_part(es.drop_last())
    }
}

/// The values of an array (none for other values).
pub open spec fn array_items(v: SpecSlice) -> Seq<SpecSlice> {
    match v.value {
        SpecValue::Array(xs) => xs,
        _ => seq![],
    }
}

/// The entries of a dictionary (none for other values).
pub open spec fn dict_entries(v: SpecSlice) -> Seq<SpecEntry> {
    match v.value {
        SpecValue::Dict(es) => es,
        _ => seq![],
    }
}

/// The values of the arrays of the entries `ges`, one after the other.
pub open spec fn glyph_items(ges: Seq<SpecEntry>) -> Seq<SpecSlice>
    decreases ges.len(),
{
    if ges.len() == 0 {
        seq![]
    } else {
        glyph_items(ges.drop_last()) + array_items(ges.last().value)
    }
}

/// The name that a glyph has in a package: the value of its last `glyphname` entry.
pub open spec fn packed_name(g: SpecSlice) -> Seq<char> {
    match glyph_name_of(dict_entries(g)) {
        Ok(Some(n)) => n,
        _ => seq![],
    }
}

proof fn lemma_keys_differ()
    ensures
        KEY_DISPLAY_STRINGS_STANDALONE@ != KEY_GLYPHS@,
{
    reveal_strlit("DisplayStrings");
    reveal_strlit("glyphs");
    assert(KEY_DISPLAY_STRINGS_STANDALONE@.len() != KEY_GLYPHS@.len());
}

proof fn lemma_add_glyphs_shape(p: SpecParts, gs: Seq<SpecSlice>)
    requires
        add_glyphs(p, gs) is Ok,
    ensures
        ({
            let q = add_glyphs(p, gs)->Ok_0;
            &&& q.fontinfo == p.fontinfo
            &&& q.ui_state == p.ui_state
            &&& q.order == p.order + gs.map_values(|g: SpecSlice| packed_name(g))
            &&& q.glyphs == p.glyphs + gs.map_values(
                |g: SpecSlice| (packed_name(g), g.code),
            )
        }),
        forall|j: int|
            0 <= j < gs.len() ==> (#[trigger] gs[j]).value is Dict && glyph_name_of(
                dict_entries(gs[j]),
            ) == Ok::<_, PackError>(Some(packed_name(gs[j]))),
    decreases gs.len(),
{
    if gs.len() == 0 {
        assert(gs.map_values(|g: SpecSlice| packed_name(g)) =~= Seq::<Seq<char>>::empty());
        assert(gs.map_values(|g: SpecSlice| (packed_name(g), g.code)) =~= Seq::<
            (Seq<char>, Seq<char>),
        >::empty());
        assert(p.order + Seq::<Seq<char>>::empty() =~= p.order);
        assert(p.glyphs + Seq::<(Seq<char>, Seq<char>)>::empty() =~= p.glyphs);
    } else {
        let front = gs.drop_last();
        let g = gs.last();
        lemma_add_glyphs_shape(p, front);
        let q = add_glyphs(p, front)->Ok_0;
        assert(add_glyphs(p, gs) == add_glyph(q, g));
        assert(gs.map_values(|g: SpecSlice| packed_name(g)) =~= front.map_values(
            |g: SpecSlice| packed_name(g),
        ).push(packed_name(g)));
        assert(gs.map_values(|g: SpecSlice| (packed_name(g), g.code)) =~= front.map_values(
            |g: SpecSlice| (packed_name(g), g.code),
        ).push((packed_name(g), g.code)));
        let r = add_glyphs(p, gs)->Ok_0;
        assert(r.order =~= p.order + gs.map_values(|g: SpecSlice| packed_name(g)));
        assert(r.glyphs =~= p.glyphs + gs.map_values(|g: SpecSlice| (packed_name(g), g.code)));
        assert forall|j: int| 0 <= j < gs.len() implies (#[trigger] gs[j]).value is Dict
            && glyph_name_of(dict_entries(gs[j])) == Ok::<_, PackError>(
            Some(packed_name(gs[j])),
        ) by {
            if j < gs.len() - 1 {
                assert(gs[j] == front[j]);
            }
        }
    }
}

/// What splitting the top-level entries gives: the codes of the entries that stay in the
/// font info, the display strings as the UI state writes them, and the name and code of
/// each glyph of the `glyphs` entries.
pub proof fn lemma_pack_parts_shape(es: Seq<SpecEntry>)
    requires
        pack_parts(es) is Ok,
    ensures
        ({
            let p = pack_parts(es)->Ok_0;
            let gs = glyph_items(entries_with_key(es, KEY_GLYPHS@));
            &&& p.fontinfo == fontinfo_part(es).map_values(|e: SpecEntry| e.code)
            &&& p.ui_state == entries_with_key(es, KEY_DISPLAY_STRINGS_STANDALONE@).map_values(
                |e: SpecEntry| display_strings_code(e.value.code),
            )
            &&& p.order == gs.map_values(|g: SpecSlice| packed_name(g))
            &&& p.glyphs == gs.map_values(|g: SpecSlice| (packed_name(g), g.code))
        }),
        forall|j: int|
            0 <= j < glyph_items(entries_with_key(es, KEY_GLYPHS@)).len() ==> (#[trigger] glyph_items(
                entries_with_key(es, KEY_GLYPHS@),
            )[j]).value is Dict && glyph_name_of(
                dict_entries(glyph_items(entries_with_key(es, KEY_GLYPHS@))[j]),
            ) == Ok::<_, PackError>(
                Some(packed_name(glyph_items(entries_with_key(es, KEY_GLYPHS@))[j])),
            ),
        forall|k: int|
            0 <= k < entries_with_key(es, KEY_GLYPHS@).len() ==> (#[trigger] entries_with_key(
                es,
                KEY_GLYPHS@,
            )[k]).value.value is Array,
    decreases es.len(),
{
    let ds = KEY_DISPLAY_STRINGS_STANDALONE@;
    let gk = KEY_GLYPHS@;
    lemma_keys_differ();
    if es.len() == 0 {
        let p = pack_parts(es)->Ok_0;
        assert(fontinfo_part(es).map_values(|e: SpecEntry| e.code) =~= p.fontinfo);
        assert(entries_with_key(es, ds).map_values(
            |e: SpecEntry| display_strings_code(e.value.code),
        ) =~= p.ui_state);
        assert(glyph_items(entries_with_key(es, gk)).map_values(|g: SpecSlice| packed_name(g))
            =~= p.order);
        assert(glyph_items(entries_with_key(es, gk)).map_values(
            |g: SpecSlice| (packed_name(g), g.code),
        ) =~= p.glyphs);
    } else {
        let front = es.drop_last();
        let e = es.last();
        lemma_pack_parts_shape(front);
        let q = pack_parts(front)->Ok_0;
        let p = pack_parts(es)->Ok_0;
        assert(pack_parts(es) == add_entry(q, e));
        let fgs = glyph_items(entries_with_key(front, gk));
        if e.key == ds {
            assert(entries_with_key(es, gk) == entries_with_key(front, gk));
            assert(fontinfo_part(es) == fontinfo_part(front));
            assert(entries_with_key(es, ds).map_values(
                |e: SpecEntry| display_strings_code(e.value.code),
            ) =~= entries_with_key(front, ds).map_values(
                |e: SpecEntry| display_strings_code(e.value.code),
            ).push(display_strings_code(e.value.code)));
        } else if e.key == gk {
            let gs = array_items(e.value);
            assert(add_entry(q, e) == add_glyphs(q, gs));
            lemma_add_glyphs_shape(q, gs);
            assert(entries_with_key(es, ds) == entries_with_key(front, ds));
            assert(fontinfo_part(es) == fontinfo_part(front));
            let ges = entries_with_key(es, gk);
            assert(ges == entries_with_key(front, gk).push(e));
            assert(ges.drop_last() =~= entries_with_key(front, gk));
            assert(glyph_items(ges) == fgs + gs);
            assert((fgs + gs).map_values(|g: SpecSlice| packed_name(g)) =~= fgs.map_values(
                |g: SpecSlice| packed_name(g),
            ) + gs.map_values(|g: SpecSlice| packed_name(g)));
            assert((fgs + gs).map_values(|g: SpecSlice| (packed_name(g), g.code))
                =~= fgs.map_values(|g: SpecSlice| (packed_name(g), g.code)) + gs.map_values(
                |g: SpecSlice| (packed_name(g), g.code),
            ));
            assert forall|j: int| 0 <= j < glyph_items(ges).len() implies (#[trigger] glyph_items(
                ges,
            )[j]).value is Dict && glyph_name_of(dict_entries(glyph_items(ges)[j])) == Ok::<
                _,
                PackError,
            >(Some(packed_name(glyph_items(ges)[j]))) by {
                if j < fgs.len() {
                    assert(glyph_items(ges)[j] == fgs[j]);
                } else {
                    assert(glyph_items(ges)[j] == gs[j - fgs.len()]);
                }
            }
            assert forall|k: int| 0 <= k < ges.len() implies (#[trigger] ges[k]).value.value is Array by {
                if k < ges.len() - 1 {
                    assert(ges[k] == entries_with_key(front, gk)[k]);
                }
            }
        } else {
            assert(entries_with_key(es, gk) == entries_with_key(front, gk));
            assert(entries_with_key(es, ds) == entries_with_key(front, ds));
            assert(fontinfo_part(es) == fontinfo_part(front).push(e));
            assert(fontinfo_part(es).map_values(|e: SpecEntry| e.code) =~= fontinfo_part(
                front,
            ).map_values(|e: SpecEntry| e.code).push(e.code));
        }
    }
}

/// The entries split three ways: those that stay in the font info, the display strings and
/// the glyphs entries; together they are all the entries.
proof fn lemma_partition(es: Seq<SpecEntry>)
    ensures
        es.map_values(|e: SpecEntry| key_value(e)).to_multiset() == fontinfo_part(es).map_values(
            |e: SpecEntry| key_value(e),
        ).to_multiset().add(
            entries_with_key(es, KEY_DISPLAY_STRINGS_STANDALONE@).map_values(
                |e: SpecEntry| key_value(e),
            ).to_multiset(),
        ).add(entries_with_key(es, KEY_GLYPHS@).map_values(|e: SpecEntry| key_value(e)).to_multiset()),
    decreases es.len(),
{
    broadcast use vstd::seq_lib::group_to_multiset_ensures;
    broadcast use vstd::multiset::group_multiset_axioms;

    let ds = KEY_DISPLAY_STRINGS_STANDALONE@;
    let gk = KEY_GLYPHS@;
    lemma_keys_differ();
    if es.len() == 0 {
        assert(es.map_values(|e: SpecEntry| key_value(e)) =~= Seq::<(Seq<char>, SpecValue)>::empty());
        assert(fontinfo_part(es).map_values(|e: SpecEntry| key_value(e)) =~= Seq::<
            (Seq<char>, SpecValue),
        >::empty());
        assert(entries_with_key(es, ds).map_values(|e: SpecEntry| key_value(e)) =~= Seq::<
            (Seq<char>, SpecValue),
        >::empty());
        assert(entries_with_key(es, gk).map_values(|e: SpecEntry| key_value(e)) =~= Seq::<
            (Seq<char>, SpecValue),
        >::empty());
        assert(Seq::<(Seq<char>, SpecValue)>::empty().to_multiset() =~= Multiset::empty());
        assert(Multiset::<(Seq<char>, SpecValue)>::empty().add(Multiset::empty()).add(
            Multiset::empty(),
        ) =~= Multiset::empty());
    } else {
        let front = es.drop_last();
        let e = es.last();
        lemma_partition(front);
        let x = key_value(e);
        let a = fontinfo_part(front).map_values(|e: SpecEntry| key_value(e));
        let b = entries_with_key(front, ds).map_values(|e: SpecEntry| key_value(e));
        let c = entries_with_key(front, gk).map_values(|e: SpecEntry| key_value(e));
        assert(es.map_values(|e: SpecEntry| key_value(e)) =~= front.map_values(
            |e: SpecEntry| key_value(e),
        ).push(x));
        if e.key == ds {
            assert(entries_with_key(es, ds).map_values(|e: SpecEntry| key_value(e)) =~= b.push(x));
            assert(a.to_multiset().add(b.push(x).to_multiset()).add(c.to_multiset())
                =~= a.to_multiset().add(b.to_multiset()).add(c.to_multiset()).insert(x));
        } else if e.key == gk {
            assert(entries_with_key(es, gk).map_values(|e: SpecEntry| key_value(e)) =~= c.push(x));
            assert(a.to_multiset().add(b.to_multiset()).add(c.push(x).to_multiset())
                =~= a.to_multiset().add(b.to_multiset()).add(c.to_multiset()).insert(x));
        } else {
            assert(fontinfo_part(es).map_values(|e: SpecEntry| key_value(e)) =~= a.push(x));
            assert(a.push(x).to_multiset().add(b.to_multiset()).add(c.to_multiset())
                =~= a.to_multiset().add(b.to_multiset()).add(c.to_multiset()).insert(x));
        }
    }
}

/// Every entry of the parts is an entry of the whole.
proof fn lemma_parts_in(es: Seq<SpecEntry>, k: Seq<char>)
    ensures
        forall|i: int|
            0 <= i < fontinfo_part(es).len() ==> es.contains(#[trigger] fontinfo_part(es)[i]),
        forall|i: int|
            0 <= i < entries_with_key(es, k).len() ==> es.contains(
                #[trigger] entries_with_key(es, k)[i],
            ) && entries_with_key(es, k)[i].key == k,
    decreases es.len(),
{
    if es.len() > 0 {
        let front = es.drop_last();
        lemma_parts_in(front, k);
        assert forall|i: int| 0 <= i < fontinfo_part(es).len() implies es.contains(
            #[trigger] fontinfo_part(es)[i],
        ) by {
            let x = fontinfo_part(es)[i];
            if i < fontinfo_part(front).len() {
                assert(x == fontinfo_part(front)[i]);
                let m = choose|m: int| 0 <= m < front.len() && front[m] == x;
                assert(es[m] == x);
            } else {
                assert(es[es.len() - 1] == x);
            }
        }
        assert forall|i: int| 0 <= i < entries_with_key(es, k).len() implies es.contains(
            #[trigger] entries_with_key(es, k)[i],
        ) && entries_with_key(es, k)[i].key == k by {
            let x = entries_with_key(es, k)[i];
            if i < entries_with_key(front, k).len() {
                assert(x == entries_with_key(front, k)[i]);
                let m = choose|m: int| 0 <= m < front.len() && front[m] == x;
                assert(es[m] == x);
            } else {
                assert(es[es.len() - 1] == x);
            }
        }
    }
}

/// Sequences with the same elements, counted, still have them after a map.
proof fn lemma_map_multiset<A, B>(s1: Seq<A>, s2: Seq<A>, f: spec_fn(A) -> B)
    requires
        s1.to_multiset() == s2.to_multiset(),
    ensures
        s1.map_values(f).to_multiset() == s2.map_values(f).to_multiset(),
    decreases s1.len(),
{
    broadcast use vstd::seq_lib::group_to_multiset_ensures;
    broadcast use vstd::multiset::group_multiset_axioms;

    if s1.len() == 0 {
        assert(s2.len() == s2.to_multiset().len());
        assert(s1.len() == s1.to_multiset().len());
        assert(s2.len() == 0);
        assert(s1.map_values(f) =~= Seq::<B>::empty());
        assert(s2.map_values(f) =~= Seq::<B>::empty());
    } else {
        let x = s1.last();
        let front = s1.drop_last();
        assert(s1 =~= front.push(x));
        assert(s1.to_multiset() =~= front.to_multiset().insert(x));
        assert(s2.to_multiset().count(x) > 0);
        assert(s2.contains(x));
        let i = choose|i: int| 0 <= i < s2.len() && s2[i] == x;
        let rest = s2.remove(i);
        assert(rest.to_multiset() =~= s2.to_multiset().remove(x));
        assert(front.to_multiset() =~= s1.to_multiset().remove(x));
        lemma_map_multiset(front, rest, f);
        assert(s1.map_values(f) =~= front.map_values(f).push(f(x)));
        let m2 = s2.map_values(f);
        assert(m2.remove(i) =~= rest.map_values(f));
        assert(m2[i] == f(x));
        assert(m2.remove(i).to_multiset() =~= m2.to_multiset().remove(f(x)));
        assert(m2.to_multiset().count(f(x)) > 0) by {
            assert(m2.contains(f(x)));
        }
        assert(m2.to_multiset() =~= m2.remove(i).to_multiset().insert(f(x)));
    }
}

/// The value `x` is what the grammar reads at `p` in `t`.
pub open spec fn parsed_at(t: Seq<char>, p: int, x: SpecSlice) -> bool {
    &&& 0 <= p <= t.len()
    &&& parse_value(t, p) is Some
    &&& (parse_value(t, p)->0).0 == x
}

/// The value `x` is what the grammar reads somewhere in `t`.
pub open spec fn read_in(t: Seq<char>, x: SpecSlice) -> bool {
    exists|p: int| #[trigger] parsed_at(t, p, x)
}

/// The value of an entry written on its own is read somewhere in its text.
proof fn lemma_entry_value_at(c: Seq<char>, e: SpecEntry)
    requires
        is_entry_code(c, e),
    ensures
        exists|p: int| #[trigger] parsed_at(c, p, e.value),
{
    let after_key = (parse_string(c, 0)->0).1;
    let eq = skip_space(c, after_key);
    let v = skip_space(c, eq + 1);
    assert(parsed_at(c, v, e.value));
}

/// A value read as an array was read by the array rule, one read as a dictionary by the
/// dictionary rule.
proof fn lemma_value_kind(t: Seq<char>, p: int, x: SpecSlice)
    requires
        parsed_at(t, p, x),
    ensures
        x.value is Array ==> parse_array(t, p) == parse_value(t, p),
        x.value is Dict ==> parse_dict(t, p) == parse_value(t, p),
{
}

/// Every further value of an array is read somewhere in the text.
proof fn lemma_items_at(t: Seq<char>, e: int)
    requires
        0 <= e <= t.len(),
        parse_items(t, e) is Some,
    ensures
        forall|j: int|
            0 <= j < (parse_items(t, e)->0).0.len() ==> read_in(
                t,
                #[trigger] (parse_items(t, e)->0).0[j],
            ),
    decreases t.len() - e,
{
    lemma_skip_space(t, e);
    let k = skip_space(t, e);
    if t[k] == ',' {
        lemma_skip_space(t, k + 1);
        let k2 = skip_space(t, k + 1);
        if !(0 <= k2 < t.len() && t[k2] == ')') {
            let (v, e2) = parse_value(t, k2)->0;
            lemma_items_at(t, e2);
            let items = (parse_items(t, e)->0).0;
            let rest = (parse_items(t, e2)->0).0;
            assert(items == seq![v] + rest);
            assert forall|j: int| 0 <= j < items.len() implies read_in(t, #[trigger] items[j]) by {
                if j == 0 {
                    assert(parsed_at(t, k2, items[0]));
                } else {
                    assert(items[j] == rest[j - 1]);
                }
            }
        }
    }
}

/// Every value of an array is read somewhere in the text.
proof fn lemma_array_items_at(t: Seq<char>, p: int)
    requires
        0 <= p <= t.len(),
        parse_array(t, p) is Some,
    ensures
        forall|j: int|
            0 <= j < array_items((parse_array(t, p)->0).0).len() ==> read_in(
                t,
                #[trigger] array_items((parse_array(t, p)->0).0)[j],
            ),
{
    lemma_skip_space(t, p + 1);
    let j0 = skip_space(t, p + 1);
    if !(0 <= j0 < t.len() && t[j0] == ')') {
        let (first, e) = parse_value(t, j0)->0;
        lemma_items_at(t, e);
        let items = array_items((parse_array(t, p)->0).0);
        let rest = (parse_items(t, e)->0).0;
        assert(items == seq![first] + rest);
        assert forall|j: int| 0 <= j < items.len() implies read_in(t, #[trigger] items[j]) by {
            if j == 0 {
                assert(parsed_at(t, j0, items[0]));
            } else {
                assert(items[j] == rest[j - 1]);
            }
        }
    }
}

/// A dictionary file holding one code, trimmed, loses only its final line break.
proof fn lemma_trim_dict_text(c: Seq<char>)
    ensures
        trim(dict_text(seq![c])) == dict_text(seq![c]).take(c.len() + 4int),
{
    let one = seq![c];
    assert(one.drop_last() =~= Seq::<Seq<char>>::empty());
    assert(lines(one) == lines(one.drop_last()) + one.last() + seq!['\n']);
    let t = dict_text(one);
    assert(t =~= seq!['{', '\n'] + c + seq!['\n', '}', '\n']);
    assert(!is_white_space(t[0]));
    assert(trim_start(t) == t);
    assert(is_white_space(t.last()));
    let u = t.drop_last();
    assert(u.last() == '}');
    assert(trim_end(u) == u);
    assert(trim_end(t) == trim_end(u));
    assert(u =~= t.take(c.len() + 4int));
}

/// A glyph read as a dictionary, written as a glyph file: the file parses back to the glyph,
/// and trimmed it is the glyph written on its own.
proof fn lemma_glyph_file(t: Seq<char>, q: int)
    requires
        0 <= q <= t.len(),
        parse_dict(t, q) is Some,
    ensures
        ({
            let g = (parse_dict(t, q)->0).0;
            let f = dict_text(seq![g.code]);
            &&& parse_root(Root::Dict, f) == Some(g)
            &&& is_dict_code(trim(f), g)
        }),
{
    law_dict_code_reparses(t, q);
    lemma_dict_code_dict_value(t, q);
    lemma_trim_dict_text((parse_dict(t, q)->0).0.code);
}

/// The glyphs of a `glyphs` entry written on its own, each written as a glyph file.
proof fn lemma_glyphs_of_entry(ge: SpecEntry)
    requires
        is_entry_code(ge.code, ge),
        ge.value.value is Array,
        forall|j: int|
            0 <= j < array_items(ge.value).len() ==> (#[trigger] array_items(ge.value)[j]).value is Dict,
    ensures
        forall|j: int|
            0 <= j < array_items(ge.value).len() ==> {
                let g = #[trigger] array_items(ge.value)[j];
                let f = dict_text(seq![g.code]);
                &&& parse_root(Root::Dict, f) == Some(g)
                &&& is_dict_code(trim(f), g)
            },
{
    let c = ge.code;
    lemma_entry_value_at(c, ge);
    let v = choose|v: int| #[trigger] parsed_at(c, v, ge.value);
    lemma_value_kind(c, v, ge.value);
    lemma_array_items_at(c, v);
    let gs = array_items(ge.value);
    assert forall|j: int| 0 <= j < gs.len() implies {
        let g = #[trigger] gs[j];
        let f = dict_text(seq![g.code]);
        &&& parse_root(Root::Dict, f) == Some(g)
        &&& is_dict_code(trim(f), g)
    } by {
        let q = choose|q: int| #[trigger] parsed_at(c, q, gs[j]);
        lemma_value_kind(c, q, gs[j]);
        lemma_glyph_file(c, q);
    }
}

/// An entry written on its own whose value is an array, written again under the key `key`
/// as the conversion writes display strings: that is an entry written on its own too, with
/// the same value.
proof fn lemma_array_entry_rekeyed(e: SpecEntry, key: Seq<char>)
    requires
        is_entry_code(e.code, e),
        e.value.value is Array,
        is_bare_name(key),
    ensures
        is_entry_code(
            keyed_array_code(key, e.value.code),
            SpecEntry { key: key, value: e.value, code: keyed_array_code(key, e.value.code) },
        ),
{
    lemma_entry_value_at(e.code, e);
    let v = choose|v: int| #[trigger] parsed_at(e.code, v, e.value);
    lemma_value_kind(e.code, v, e.value);
    law_keyed_array_code(key, e.code, v);
}

/// Glyph files that all name their glyph give their names and texts, in order.
proof fn lemma_records(files: Seq<Seq<char>>)
    requires
        forall|i: int| 0 <= i < files.len() ==> spec_glyph_name(#[trigger] files[i]) is Ok,
    ensures
        glyph_records(files) == Ok::<_, UnpackError>(
            files.map_values(|f: Seq<char>| (spec_glyph_name(f)->Ok_0, f)),
        ),
    decreases files.len(),
{
    if files.len() == 0 {
        assert(files.map_values(|f: Seq<char>| (spec_glyph_name(f)->Ok_0, f)) =~= Seq::<
            (Seq<char>, Seq<char>),
        >::empty());
    } else {
        let front = files.drop_last();
        assert forall|i: int| 0 <= i < front.len() implies spec_glyph_name(
            #[trigger] front[i],
        ) is Ok by {
            assert(front[i] == files[i]);
        }
        lemma_records(front);
        assert(files.map_values(|f: Seq<char>| (spec_glyph_name(f)->Ok_0, f)) =~= front.map_values(
            |f: Seq<char>| (spec_glyph_name(f)->Ok_0, f),
        ).push((spec_glyph_name(files.last())->Ok_0, files.last())));
    }
}

/// A name that some record has, with one code for all its records, is looked up to that
/// code.
proof fn lemma_lookup(records: Seq<(Seq<char>, Seq<char>)>, n: Seq<char>, c: Seq<char>)
    requires
        exists|i: int| 0 <= i < records.len() && (#[trigger] records[i]).0 == n,
        forall|i: int| 0 <= i < records.len() && (#[trigger] records[i]).0 == n ==> records[i].1 == c,
    ensures
        lookup(records, n) == Some(c),
    decreases records.len(),
{
    let i0 = choose|i: int| 0 <= i < records.len() && (#[trigger] records[i]).0 == n;
    if records.last().0 != n {
        let front = records.drop_last();
        assert(front[i0] == records[i0]);
        assert forall|i: int| 0 <= i < front.len() && (#[trigger] front[i]).0 == n implies front[i].1
            == c by {
            assert(front[i] == records[i]);
        }
        lemma_lookup(front, n, c);
    }
}

/// Names that are all looked up give the trimmed codes, in order.
proof fn lemma_glyph_codes(
    order: Seq<Seq<char>>,
    records: Seq<(Seq<char>, Seq<char>)>,
    cs: Seq<Seq<char>>,
)
    requires
        order.len() == cs.len(),
        forall|j: int| 0 <= j < order.len() ==> lookup(records, #[trigger] order[j]) == Some(cs[j]),
    ensures
        glyph_codes(order, records) == Ok::<_, UnpackError>(cs.map_values(|c: Seq<char>| trim(c))),
    decreases order.len(),
{
    if order.len() == 0 {
        assert(cs.map_values(|c: Seq<char>| trim(c)) =~= Seq::<Seq<char>>::empty());
    } else {
        let front = order.drop_last();
        let cfront = cs.drop_last();
        assert forall|j: int| 0 <= j < front.len() implies lookup(records, #[trigger] front[j])
            == Some(cfront[j]) by {
            assert(front[j] == order[j]);
        }
        lemma_glyph_codes(front, records, cfront);
        assert(lookup(records, order.last()) == Some(cs.last()));
        assert(cs.map_values(|c: Seq<char>| trim(c)) =~= cfront.map_values(
            |c: Seq<char>| trim(c),
        ).push(trim(cs.last())));
    }
}

/// The entry that an entry's text, read on its own, gives.
pub open spec fn entry_of(c: Seq<char>) -> SpecEntry {
    (parse_entry(c, 0)->0).0
}

/// The key and value that a keyed code's text gives.
pub open spec fn code_key_value(kc: (Seq<char>, Seq<char>)) -> (Seq<char>, SpecValue) {
    key_value(entry_of(kc.1))
}

/// Entry codes written as a standalone file (sorted by key) parse back to the entries that
/// the codes give, in some order.
proof fn lemma_standalone_reparses(all: Seq<(Seq<char>, Seq<char>)>)
    requires
        forall|i: int| 0 <= i < all.len() ==> is_entry_code((#[trigger] all[i]).1, entry_of(all[i].1)),
    ensures
        parse_root(Root::Dict, spec_standalone_text(all)) is Some,
        dict_entries(parse_root(Root::Dict, spec_standalone_text(all))->0) == sort_by_key(
            all,
        ).map_values(|kc: (Seq<char>, Seq<char>)| entry_of(kc.1)),
        dict_entries(parse_root(Root::Dict, spec_standalone_text(all))->0).map_values(
            |e: SpecEntry| key_value(e),
        ).to_multiset() == all.map_values(
            |kc: (Seq<char>, Seq<char>)| code_key_value(kc),
        ).to_multiset(),
{
    broadcast use vstd::seq_lib::group_to_multiset_ensures;

    let sorted = sort_by_key(all);
    law_sort_by_key(all);
    let codes = codes_of(sorted);
    let ents = sorted.map_values(|kc: (Seq<char>, Seq<char>)| entry_of(kc.1));
    assert forall|i: int| 0 <= i < codes.len() implies is_entry_code(#[trigger] codes[i], ents[i]) by {
        let x = sorted[i];
        assert(sorted.contains(x));
        assert(sorted.to_multiset().count(x) > 0);
        assert(all.to_multiset().count(x) > 0);
        assert(all.contains(x));
        let m = choose|m: int| 0 <= m < all.len() && all[m] == x;
        assert(is_entry_code(all[m].1, entry_of(all[m].1)));
    }
    law_dict_text_reparses(codes, ents);
    assert(ents.map_values(|e: SpecEntry| key_value(e)) =~= sorted.map_values(
        |kc: (Seq<char>, Seq<char>)| code_key_value(kc),
    ));
    lemma_map_multiset(sorted, all, |kc: (Seq<char>, Seq<char>)| code_key_value(kc));
}

/// The text of the glyph file that holds the glyph `g`.
pub open spec fn glyph_file_text(g: SpecSlice) -> Seq<char> {
    dict_text(seq![g.code])
}

/// A glyph whose name reads the same from the front of its entries as from the back: its
/// first `glyphname` is a string, and so is its last, and they are the same.
pub open spec fn one_glyph_name(g: SpecSlice) -> bool {
    &&& glyph_name_of(dict_entries(g)) == Ok::<_, PackError>(Some(packed_name(g)))
    &&& first_glyph_name(dict_entries(g)) == Ok::<_, GlyphNameError>(packed_name(g))
}

/// Glyphs whose names can be written unquoted and differ from each other, each glyph
/// naming itself the same way from the front and from the back.
pub open spec fn well_named(gs: Seq<SpecSlice>) -> bool {
    &&& forall|j: int|
        0 <= j < gs.len() ==> is_bare_name(packed_name(#[trigger] gs[j])) && one_glyph_name(gs[j])
    &&& forall|i: int, j: int|
        0 <= i < j < gs.len() ==> packed_name(#[trigger] gs[i]) != packed_name(#[trigger] gs[j])
}

proof fn lemma_keys_bare()
    ensures
        is_bare_name(KEY_GLYPHS@),
        is_bare_name(KEY_DISPLAY_STRINGS_PACKAGE@),
        is_bare_name(KEY_DISPLAY_STRINGS_STANDALONE@),
{
    reveal_strlit("glyphs");
    reveal_strlit("displayStrings");
    reveal_strlit("DisplayStrings");
}

/// Sequences with the same elements, counted: each element of one is one of the other.
proof fn lemma_in_other(a: Seq<Seq<char>>, b: Seq<Seq<char>>, i: int)
    requires
        a.to_multiset() == b.to_multiset(),
        0 <= i < a.len(),
    ensures
        exists|m: int| 0 <= m < b.len() && #[trigger] b[m] == a[i],
{
    broadcast use vstd::seq_lib::group_to_multiset_ensures;

    assert(a.contains(a[i]));
    assert(a.to_multiset().count(a[i]) > 0);
    assert(b.to_multiset().count(a[i]) > 0);
    assert(b.contains(a[i]));
}

/// Glyph names that can be written unquoted, written as an order file, read back as
/// themselves.
proof fn lemma_order_back(gs: Seq<SpecSlice>)
    requires
        well_named(gs),
    ensures
        spec_order_names(array_text(gs.map_values(|g: SpecSlice| packed_name(g)))) == Ok::<
            _,
            UnpackError,
        >(gs.map_values(|g: SpecSlice| packed_name(g))),
{
    let ns = gs.map_values(|g: SpecSlice| packed_name(g));
    assert forall|i: int| 0 <= i < ns.len() implies is_bare_name(#[trigger] ns[i]) by {
        assert(ns[i] == packed_name(gs[i]));
    }
    law_array_text_reparses(ns);
    let vs = ns.map_values(|n: Seq<char>| name_slice(n));
    assert forall|k: int| 0 <= k < vs.len() implies (#[trigger] vs[k]).value is String by {
        assert(vs[k] == name_slice(ns[k]));
    }
    assert(vs.map_values(|v: SpecSlice| string_of(v)) =~= ns);
    assert(names_of(vs) == Ok::<_, UnpackError>(ns));
}

/// Glyph files (in any order) of well-named glyphs that each parse back to their glyph
/// give, for the glyph names in order, the trimmed texts of the glyphs' files.
proof fn lemma_files_back(gs: Seq<SpecSlice>, files: Seq<Seq<char>>)
    requires
        well_named(gs),
        forall|j: int|
            0 <= j < gs.len() ==> parse_root(Root::Dict, glyph_file_text(#[trigger] gs[j])) == Some(
                gs[j],
            ) && gs[j].value is Dict,
        files.to_multiset() == gs.map_values(|g: SpecSlice| glyph_file_text(g)).to_multiset(),
    ensures
        glyph_records(files) is Ok,
        glyph_codes(gs.map_values(|g: SpecSlice| packed_name(g)), glyph_records(files)->Ok_0)
            == Ok::<_, UnpackError>(
            gs.map_values(|g: SpecSlice| glyph_file_text(g)).map_values(|c: Seq<char>| trim(c)),
        ),
{
    let ns = gs.map_values(|g: SpecSlice| packed_name(g));
    let texts = gs.map_values(|g: SpecSlice| glyph_file_text(g));
    assert forall|j: int| 0 <= j < texts.len() implies spec_glyph_name(#[trigger] texts[j])
        == Ok::<_, GlyphNameError>(ns[j]) by {
        assert(texts[j] == glyph_file_text(gs[j]));
        assert(ns[j] == packed_name(gs[j]));
        assert(one_glyph_name(gs[j]));
    }
    assert forall|i: int| 0 <= i < files.len() implies spec_glyph_name(#[trigger] files[i]) is Ok by {
        lemma_in_other(files, texts, i);
    }
    lemma_records(files);
    let records = files.map_values(|f: Seq<char>| (spec_glyph_name(f)->Ok_0, f));
    assert forall|j: int| 0 <= j < ns.len() implies lookup(records, #[trigger] ns[j]) == Some(
        texts[j],
    ) by {
        lemma_in_other(texts, files, j);
        let i0 = choose|i: int| 0 <= i < files.len() && #[trigger] files[i] == texts[j];
        assert(records[i0].0 == ns[j]);
        assert forall|i: int| 0 <= i < records.len() && (#[trigger] records[i]).0 == ns[j] implies records[i].1
            == texts[j] by {
            lemma_in_other(files, texts, i);
            let m = choose|m: int| 0 <= m < texts.len() && #[trigger] texts[m] == files[i];
            assert(records[i].0 == ns[m]);
            assert(ns[m] == packed_name(gs[m]));
            assert(ns[j] == packed_name(gs[j]));
            if m < j {
                assert(packed_name(gs[m]) != packed_name(gs[j]));
            } else if j < m {
                assert(packed_name(gs[j]) != packed_name(gs[m]));
            }
        }
        lemma_lookup(records, ns[j], texts[j]);
    }
    lemma_glyph_codes(ns, records, texts);
}

/// The glyphs of a `glyphs` entry, written as a package's order and glyph files, and read
/// back (the files in any order): the order gives their names, the files give their names
/// and texts, and the `glyphs` entry made from them is an entry written on its own with the
/// same key and value.
#[verifier::spinoff_prover]
proof fn lemma_glyphs_back(ge: SpecEntry, files: Seq<Seq<char>>)
    requires
        is_entry_code(ge.code, ge),
        ge.key == KEY_GLYPHS@,
        ge.value.value is Array,
        forall|j: int|
            0 <= j < array_items(ge.value).len() ==> (#[trigger] array_items(ge.value)[j]).value is Dict,
        well_named(array_items(ge.value)),
        files.to_multiset() == array_items(ge.value).map_values(
            |g: SpecSlice| glyph_file_text(g),
        ).to_multiset(),
    ensures
        ({
            let ns = array_items(ge.value).map_values(|g: SpecSlice| packed_name(g));
            &&& spec_order_names(array_text(ns)) == Ok::<_, UnpackError>(ns)
            &&& glyph_records(files) is Ok
            &&& spec_glyphs_entry(ns, glyph_records(files)->Ok_0) is Ok
            &&& is_entry_code(
                spec_glyphs_entry(ns, glyph_records(files)->Ok_0)->Ok_0,
                entry_of(spec_glyphs_entry(ns, glyph_records(files)->Ok_0)->Ok_0),
            )
            &&& code_key_value((KEY_GLYPHS@, spec_glyphs_entry(ns, glyph_records(files)->Ok_0)->Ok_0))
                == key_value(ge)
        }),
{
    let gs = array_items(ge.value);
    let texts = gs.map_values(|g: SpecSlice| glyph_file_text(g));
    lemma_glyphs_of_entry(ge);
    lemma_keys_bare();
    lemma_order_back(gs);
    lemma_files_back(gs, files);
    let ws = texts.map_values(|c: Seq<char>| trim(c));
    assert forall|j: int| 0 <= j < ws.len() implies is_dict_code(#[trigger] ws[j], gs[j]) by {
        assert(ws[j] == trim(texts[j]));
        assert(texts[j] == glyph_file_text(gs[j]));
    }
    law_keyed_values_code(KEY_GLYPHS@, ws, gs);
    lemma_glyphs_code_keyed(ws);
    let records = glyph_records(files)->Ok_0;
    let ns = gs.map_values(|g: SpecSlice| packed_name(g));
    assert(spec_glyphs_entry(ns, records) == Ok::<_, UnpackError>(glyphs_code(ws)));
    assert(ge.value.value == SpecValue::Array(gs));
}

/// The `glyphs` entry that a standalone file is written with is the array of the glyph
/// codes under the key `glyphs`.
proof fn lemma_glyphs_code_keyed(ws: Seq<Seq<char>>)
    ensures
        glyphs_code(ws) == keyed_array_code(KEY_GLYPHS@, joined(ws, seq![','])),
{
    reveal_strlit(" = (\n");
    reveal_strlit("\n);");
    reveal_strlit(",");
    assert(","@ =~= seq![',']);
    assert(" = (\n"@ =~= seq![' ', '=', ' ', '(', '\n']);
    assert("\n);"@ =~= seq!['\n', ')', ';']);
    assert(glyphs_code(ws) =~= keyed_array_code(KEY_GLYPHS@, joined(ws, seq![','])));
}

/// An entry whose value is an array, as the conversion writes it.
proof fn lemma_array_code_keyed(key: Seq<char>, code: Seq<char>)
    ensures
        key + " = (\n"@ + code + "\n);"@ == keyed_array_code(key, code),
{
    reveal_strlit(" = (\n");
    reveal_strlit("\n);");
    assert(" = (\n"@ =~= seq![' ', '=', ' ', '(', '\n']);
    assert("\n);"@ =~= seq!['\n', ')', ';']);
    assert(key + " = (\n"@ + code + "\n);"@ =~= keyed_array_code(key, code));
}

/// An entry written on its own is what its text gives.
proof fn lemma_entry_of(e: SpecEntry)
    requires
        is_entry_code(e.code, e),
    ensures
        entry_of(e.code) == e,
{
}

/// The entries that stay in the font info, written as the package's font info and read
/// back: the same entries, each written as it was.
proof fn lemma_fontinfo_back(es: Seq<SpecEntry>)
    requires
        forall|k: int| 0 <= k < es.len() ==> is_entry_code((#[trigger] es[k]).code, es[k]),
    ensures
        spec_fontinfo_entries(dict_text(fontinfo_part(es).map_values(|e: SpecEntry| e.code)))
            == Ok::<_, UnpackError>(keyed_codes(fontinfo_part(es))),
        forall|i: int|
            0 <= i < fontinfo_part(es).len() ==> is_entry_code(
                (#[trigger] fontinfo_part(es)[i]).code,
                fontinfo_part(es)[i],
            ),
{
    lemma_parts_in(es, KEY_GLYPHS@);
    let fi = fontinfo_part(es);
    let cs = fi.map_values(|e: SpecEntry| e.code);
    assert forall|i: int| 0 <= i < fi.len() implies is_entry_code((#[trigger] fi[i]).code, fi[i]) by {
        assert(es.contains(fi[i]));
        let m = choose|m: int| 0 <= m < es.len() && es[m] == fi[i];
        assert(is_entry_code(es[m].code, es[m]));
    }
    assert forall|i: int| 0 <= i < cs.len() implies is_entry_code(#[trigger] cs[i], fi[i]) by {
        assert(cs[i] == fi[i].code);
    }
    law_dict_text_reparses(cs, fi);
}

/// The display strings as a standalone file writes them back: each under its key, with its
/// array.
pub open spec fn display_strings_back(ds: Seq<SpecEntry>) -> Seq<(Seq<char>, Seq<char>)> {
    ds.map_values(
        |e: SpecEntry|
            (
                KEY_DISPLAY_STRINGS_STANDALONE@,
                keyed_array_code(KEY_DISPLAY_STRINGS_STANDALONE@, e.value.code),
            ),
    )
}

/// The value that display strings have once written into a UI state: an array stays as it
/// is; a string becomes an array of that one string, written as the string was.
pub open spec fn display_strings_value(e: SpecEntry) -> SpecSlice {
    if e.value.value is Array {
        e.value
    } else {
        SpecSlice { value: SpecValue::Array(seq![e.value]), code: e.value.code }
    }
}

/// Display strings (arrays or strings) written as a package's UI state and read back: each
/// comes back under its standalone key, as an entry written on its own; an array comes back
/// with the same value.
proof fn lemma_ui_back(ds: Seq<SpecEntry>)
    requires
        forall|k: int|
            0 <= k < ds.len() ==> is_entry_code((#[trigger] ds[k]).code, ds[k]) && (
            ds[k].value.value is Array || ds[k].value.value is String) && ds[k].key
                == KEY_DISPLAY_STRINGS_STANDALONE@,
    ensures
        spec_ui_state_entries(
            dict_text(ds.map_values(|e: SpecEntry| display_strings_code(e.value.code))),
        ) == Ok::<_, UnpackError>(display_strings_back(ds)),
        forall|i: int|
            0 <= i < ds.len() ==> is_entry_code(
                (#[trigger] display_strings_back(ds)[i]).1,
                entry_of(display_strings_back(ds)[i].1),
            ) && entry_of(display_strings_back(ds)[i].1).key == KEY_DISPLAY_STRINGS_STANDALONE@
                && (ds[i].value.value is Array ==> code_key_value(display_strings_back(ds)[i])
                == key_value(ds[i])),
{
    lemma_keys_bare();
    let dsp = KEY_DISPLAY_STRINGS_PACKAGE@;
    let dss = KEY_DISPLAY_STRINGS_STANDALONE@;
    let cs = ds.map_values(|e: SpecEntry| display_strings_code(e.value.code));
    let pents = ds.map_values(
        |e: SpecEntry|
            SpecEntry {
                key: dsp,
                value: display_strings_value(e),
                code: keyed_array_code(dsp, e.value.code),
            },
    );
    let back = display_strings_back(ds);
    assert forall|i: int| 0 <= i < cs.len() implies is_entry_code(#[trigger] cs[i], pents[i]) by {
        lemma_array_code_keyed(dsp, ds[i].value.code);
        if ds[i].value.value is Array {
            lemma_array_entry_rekeyed(ds[i], dsp);
        } else {
            law_keyed_string_code(dsp, ds[i]);
        }
    }
    law_dict_text_reparses(cs, pents);
    assert forall|i: int| 0 <= i < ds.len() implies #[trigger] ui_state_entry(pents[i]) == back[i] by {
        lemma_array_code_keyed(dss, ds[i].value.code);
    }
    assert(pents.map_values(|e: SpecEntry| ui_state_entry(e)) =~= back);
    assert forall|i: int| 0 <= i < ds.len() implies is_entry_code(
        (#[trigger] back[i]).1,
        entry_of(back[i].1),
    ) && entry_of(back[i].1).key == dss && (ds[i].value.value is Array ==> code_key_value(back[i])
        == key_value(ds[i])) by {
        if ds[i].value.value is Array {
            lemma_array_entry_rekeyed(ds[i], dss);
        } else {
            law_keyed_string_code(dss, ds[i]);
        }
    }
}

/// The top-level entries of a standalone file (none when it does not parse).
pub open spec fn top_entries(s: Seq<char>) -> Seq<SpecEntry> {
    match parse_root(Root::Dict, s) {
        Some(sl) => dict_entries(sl),
        None => seq![],
    }
}

/// The glyphs of a standalone file: the values of its `glyphs` arrays.
pub open spec fn standalone_glyphs(s: Seq<char>) -> Seq<SpecSlice> {
    glyph_items(entries_with_key(top_entries(s), KEY_GLYPHS@))
}

/// The keyed codes that a standalone file is joined from, when its package was split from
/// a standalone file with the entries `es`.
pub open spec fn joined_entries(
    es: Seq<SpecEntry>,
    glyphs_code: Seq<char>,
) -> Seq<(Seq<char>, Seq<char>)> {
    let base = keyed_codes(fontinfo_part(es)).push((KEY_GLYPHS@, glyphs_code));
    if entries_with_key(es, KEY_DISPLAY_STRINGS_STANDALONE@).len() == 0 {
        base
    } else {
        base + display_strings_back(entries_with_key(es, KEY_DISPLAY_STRINGS_STANDALONE@))
    }
}

/// The keyed codes that the join is made from give the same keys and values as the entries
/// of the standalone file that was split.
proof fn lemma_joined_key_values(es: Seq<SpecEntry>, ge: SpecEntry, gc: Seq<char>)
    requires
        entries_with_key(es, KEY_GLYPHS@) == seq![ge],
        code_key_value((KEY_GLYPHS@, gc)) == key_value(ge),
        forall|i: int|
            0 <= i < fontinfo_part(es).len() ==> is_entry_code(
                (#[trigger] fontinfo_part(es)[i]).code,
                fontinfo_part(es)[i],
            ),
        forall|i: int|
            0 <= i < entries_with_key(es, KEY_DISPLAY_STRINGS_STANDALONE@).len() ==> code_key_value(
                #[trigger] display_strings_back(entries_with_key(es, KEY_DISPLAY_STRINGS_STANDALONE@))[i],
            ) == key_value(entries_with_key(es, KEY_DISPLAY_STRINGS_STANDALONE@)[i]),
    ensures
        joined_entries(es, gc).map_values(|kc: (Seq<char>, Seq<char>)| code_key_value(kc)).to_multiset()
            == es.map_values(|e: SpecEntry| key_value(e)).to_multiset(),
{
    broadcast use vstd::seq_lib::group_to_multiset_ensures;
    broadcast use vstd::multiset::group_multiset_axioms;
    broadcast use vstd::seq_lib::lemma_multiset_commutative;

    let fi = fontinfo_part(es);
    let ds = entries_with_key(es, KEY_DISPLAY_STRINGS_STANDALONE@);
    let kfi = keyed_codes(fi);
    let a = fi.map_values(|e: SpecEntry| key_value(e));
    let b = ds.map_values(|e: SpecEntry| key_value(e));
    let c = entries_with_key(es, KEY_GLYPHS@).map_values(|e: SpecEntry| key_value(e));
    lemma_partition(es);
    assert(c =~= seq![key_value(ge)]);
    assert(c.to_multiset() =~= Multiset::empty().insert(key_value(ge))) by {
        assert(c =~= Seq::<(Seq<char>, SpecValue)>::empty().push(key_value(ge)));
    }
    assert forall|i: int| 0 <= i < kfi.len() implies code_key_value(#[trigger] kfi[i]) == a[i] by {
        assert(kfi[i] == (fi[i].key, fi[i].code));
        lemma_entry_of(fi[i]);
    }
    let base = kfi.push((KEY_GLYPHS@, gc));
    let mbase = base.map_values(|kc: (Seq<char>, Seq<char>)| code_key_value(kc));
    assert(mbase =~= a.push(key_value(ge)));
    let back = display_strings_back(ds);
    let mback = back.map_values(|kc: (Seq<char>, Seq<char>)| code_key_value(kc));
    assert(mback =~= b);
    if ds.len() == 0 {
        assert(b =~= Seq::<(Seq<char>, SpecValue)>::empty());
        assert(b.to_multiset() =~= Multiset::empty());
        assert(joined_entries(es, gc) == base);
        assert(a.push(key_value(ge)).to_multiset() =~= a.to_multiset().add(b.to_multiset()).add(
            c.to_multiset(),
        ));
    } else {
        assert(joined_entries(es, gc) == base + back);
        assert((base + back).map_values(|kc: (Seq<char>, Seq<char>)| code_key_value(kc))
            =~= mbase + mback);
        assert((mbase + mback).to_multiset() =~= mbase.to_multiset().add(mback.to_multiset()));
        assert(mbase.to_multiset() =~= a.to_multiset().insert(key_value(ge)));
        assert(a.to_multiset().insert(key_value(ge)).add(b.to_multiset()) =~= a.to_multiset().add(
            b.to_multiset(),
        ).add(c.to_multiset()));
    }
}

/// What splitting a standalone file with one `glyphs` entry `ge` shows of its entries.
proof fn lemma_split_facts(s: Seq<char>) -> (ge: SpecEntry)
    requires
        spec_pack(s) is Ok,
        entries_with_key(top_entries(s), KEY_GLYPHS@).len() == 1,
    ensures
        ({
            let es = top_entries(s);
            let p = pack_parts(es)->Ok_0;
            let gs = array_items(ge.value);
            &&& forall|k: int| 0 <= k < es.len() ==> is_entry_code((#[trigger] es[k]).code, es[k])
            &&& entries_with_key(es, KEY_GLYPHS@) == seq![ge]
            &&& is_entry_code(ge.code, ge)
            &&& ge.key == KEY_GLYPHS@
            &&& ge.value.value is Array
            &&& forall|j: int| 0 <= j < gs.len() ==> (#[trigger] gs[j]).value is Dict
            &&& standalone_glyphs(s) == gs
            &&& pack_parts(es) is Ok
            &&& spec_pack(s)->Ok_0 == package_of(p)
            &&& p.fontinfo == fontinfo_part(es).map_values(|e: SpecEntry| e.code)
            &&& p.ui_state == entries_with_key(es, KEY_DISPLAY_STRINGS_STANDALONE@).map_values(
                |e: SpecEntry| display_strings_code(e.value.code),
            )
            &&& p.order == gs.map_values(|g: SpecSlice| packed_name(g))
            &&& (spec_pack(s)->Ok_0).glyphs.map_values(|g: (Seq<char>, Seq<char>)| g.1)
                == gs.map_values(|g: SpecSlice| glyph_file_text(g))
            &&& forall|k: int|
                0 <= k < entries_with_key(es, KEY_DISPLAY_STRINGS_STANDALONE@).len()
                    ==> is_entry_code(
                    (#[trigger] entries_with_key(es, KEY_DISPLAY_STRINGS_STANDALONE@)[k]).code,
                    entries_with_key(es, KEY_DISPLAY_STRINGS_STANDALONE@)[k],
                ) && entries_with_key(es, KEY_DISPLAY_STRINGS_STANDALONE@)[k].key
                    == KEY_DISPLAY_STRINGS_STANDALONE@
        }),
{
    let es = top_entries(s);
    let dss = KEY_DISPLAY_STRINGS_STANDALONE@;
    let gk = KEY_GLYPHS@;
    assert(parse_dict(s, 0) is Some);
    law_dict_entries_are_codes(s, 0);
    assert(forall|k: int| 0 <= k < es.len() ==> is_entry_code((#[trigger] es[k]).code, es[k]));
    lemma_pack_parts_shape(es);
    let p = pack_parts(es)->Ok_0;
    lemma_parts_in(es, dss);
    lemma_parts_in(es, gk);
    let ds = entries_with_key(es, dss);
    let ges = entries_with_key(es, gk);
    let ge = ges[0];
    assert(ges =~= seq![ge]);
    assert(es.contains(ge));
    let m = choose|m: int| 0 <= m < es.len() && es[m] == ge;
    assert(is_entry_code(ge.code, ge));
    let gs = array_items(ge.value);
    assert(ges.drop_last() =~= Seq::<SpecEntry>::empty());
    assert(ges.last() == ge);
    assert(glyph_items(Seq::<SpecEntry>::empty()) == Seq::<SpecSlice>::empty());
    assert(glyph_items(ges) == glyph_items(ges.drop_last()) + array_items(ges.last().value));
    assert(glyph_items(ges) =~= gs);
    assert(package_of(p).glyphs.map_values(|g: (Seq<char>, Seq<char>)| g.1) =~= gs.map_values(
        |g: SpecSlice| glyph_file_text(g),
    ));
    assert forall|k: int| 0 <= k < ds.len() implies is_entry_code((#[trigger] ds[k]).code, ds[k])
        && ds[k].key == dss by {
        assert(es.contains(ds[k]));
        let n = choose|n: int| 0 <= n < es.len() && es[n] == ds[k];
        assert(is_entry_code(es[n].code, es[n]));
    }
    ge
}

/// Each keyed code that the join is made from is an entry written on its own, under its
/// key; the first ones are the entries that stay in the font info, as they were.
proof fn lemma_joined_entry_codes(es: Seq<SpecEntry>, gc: Seq<char>)
    requires
        is_entry_code(gc, entry_of(gc)),
        entry_of(gc).key == KEY_GLYPHS@,
        forall|i: int|
            0 <= i < fontinfo_part(es).len() ==> is_entry_code(
                (#[trigger] fontinfo_part(es)[i]).code,
                fontinfo_part(es)[i],
            ),
        forall|i: int|
            0 <= i < entries_with_key(es, KEY_DISPLAY_STRINGS_STANDALONE@).len() ==> is_entry_code(
                (#[trigger] display_strings_back(
                    entries_with_key(es, KEY_DISPLAY_STRINGS_STANDALONE@),
                )[i]).1,
                entry_of(
                    display_strings_back(entries_with_key(es, KEY_DISPLAY_STRINGS_STANDALONE@))[i].1,
                ),
            ) && entry_of(
                display_strings_back(entries_with_key(es, KEY_DISPLAY_STRINGS_STANDALONE@))[i].1,
            ).key == KEY_DISPLAY_STRINGS_STANDALONE@,
    ensures
        forall|i: int|
            0 <= i < joined_entries(es, gc).len() ==> is_entry_code(
                (#[trigger] joined_entries(es, gc)[i]).1,
                entry_of(joined_entries(es, gc)[i].1),
            ) && entry_of(joined_entries(es, gc)[i].1).key == joined_entries(es, gc)[i].0,
        forall|i: int|
            0 <= i < fontinfo_part(es).len() ==> joined_entries(es, gc)[i] == (
                (#[trigger] fontinfo_part(es)[i]).key,
                fontinfo_part(es)[i].code,
            ) && entry_of(fontinfo_part(es)[i].code) == fontinfo_part(es)[i],
{
    let all = joined_entries(es, gc);
    let fi = fontinfo_part(es);
    let ds = entries_with_key(es, KEY_DISPLAY_STRINGS_STANDALONE@);
    assert forall|i: int| 0 <= i < all.len() implies is_entry_code(
        (#[trigger] all[i]).1,
        entry_of(all[i].1),
    ) && entry_of(all[i].1).key == all[i].0 by {
        if i < fi.len() {
            assert(all[i] == (fi[i].key, fi[i].code));
            lemma_entry_of(fi[i]);
        } else if i == fi.len() {
            assert(all[i] == (KEY_GLYPHS@, gc));
        } else {
            assert(all[i] == display_strings_back(ds)[i - fi.len() - 1]);
        }
    }
    assert forall|i: int| 0 <= i < fi.len() implies all[i] == ((#[trigger] fi[i]).key, fi[i].code)
        && entry_of(fi[i].code) == fi[i] by {
        assert(all[i] == (fi[i].key, fi[i].code));
        lemma_entry_of(fi[i]);
    }
}

/// The entries that stay in the font info have neither the display strings key nor the
/// glyphs key.
proof fn lemma_fontinfo_part_keys(es: Seq<SpecEntry>)
    ensures
        forall|i: int|
            0 <= i < fontinfo_part(es).len() ==> (#[trigger] fontinfo_part(es)[i]).key
                != KEY_DISPLAY_STRINGS_STANDALONE@ && fontinfo_part(es)[i].key != KEY_GLYPHS@,
    decreases es.len(),
{
    if es.len() > 0 {
        lemma_fontinfo_part_keys(es.drop_last());
        let f = fontinfo_part(es);
        let ff = fontinfo_part(es.drop_last());
        assert forall|i: int| 0 <= i < f.len() implies (#[trigger] f[i]).key
            != KEY_DISPLAY_STRINGS_STANDALONE@ && f[i].key != KEY_GLYPHS@ by {
            if i < ff.len() {
                assert(f[i] == ff[i]);
            }
        }
    }
}

/// The entries split three ways, by key: together they have all the keys of the entries.
proof fn lemma_partition_keys(es: Seq<SpecEntry>)
    ensures
        es.map_values(|e: SpecEntry| e.key).to_multiset() == fontinfo_part(es).map_values(
            |e: SpecEntry| e.key,
        ).to_multiset().add(
            entries_with_key(es, KEY_DISPLAY_STRINGS_STANDALONE@).map_values(
                |e: SpecEntry| e.key,
            ).to_multiset(),
        ).add(entries_with_key(es, KEY_GLYPHS@).map_values(|e: SpecEntry| e.key).to_multiset()),
    decreases es.len(),
{
    broadcast use vstd::seq_lib::group_to_multiset_ensures;
    broadcast use vstd::multiset::group_multiset_axioms;

    let ds = KEY_DISPLAY_STRINGS_STANDALONE@;
    let gk = KEY_GLYPHS@;
    lemma_keys_differ();
    if es.len() == 0 {
        assert(es.map_values(|e: SpecEntry| e.key) =~= Seq::<Seq<char>>::empty());
        assert(fontinfo_part(es).map_values(|e: SpecEntry| e.key) =~= Seq::<Seq<char>>::empty());
        assert(entries_with_key(es, ds).map_values(|e: SpecEntry| e.key) =~= Seq::<
            Seq<char>,
        >::empty());
        assert(entries_with_key(es, gk).map_values(|e: SpecEntry| e.key) =~= Seq::<
            Seq<char>,
        >::empty());
        assert(Seq::<Seq<char>>::empty().to_multiset() =~= Multiset::empty());
        assert(Multiset::<Seq<char>>::empty().add(Multiset::empty()).add(Multiset::empty())
            =~= Multiset::empty());
    } else {
        let front = es.drop_last();
        let e = es.last();
        lemma_partition_keys(front);
        let x = e.key;
        let a = fontinfo_part(front).map_values(|e: SpecEntry| e.key);
        let b = entries_with_key(front, ds).map_values(|e: SpecEntry| e.key);
        let c = entries_with_key(front, gk).map_values(|e: SpecEntry| e.key);
        assert(es.map_values(|e: SpecEntry| e.key) =~= front.map_values(|e: SpecEntry| e.key).push(
            x,
        ));
        if e.key == ds {
            assert(entries_with_key(es, ds).map_values(|e: SpecEntry| e.key) =~= b.push(x));
            assert(a.to_multiset().add(b.push(x).to_multiset()).add(c.to_multiset())
                =~= a.to_multiset().add(b.to_multiset()).add(c.to_multiset()).insert(x));
        } else if e.key == gk {
            assert(entries_with_key(es, gk).map_values(|e: SpecEntry| e.key) =~= c.push(x));
            assert(a.to_multiset().add(b.to_multiset()).add(c.push(x).to_multiset())
                =~= a.to_multiset().add(b.to_multiset()).add(c.to_multiset()).insert(x));
        } else {
            assert(fontinfo_part(es).map_values(|e: SpecEntry| e.key) =~= a.push(x));
            assert(a.push(x).to_multiset().add(b.to_multiset()).add(c.to_multiset())
                =~= a.to_multiset().add(b.to_multiset()).add(c.to_multiset()).insert(x));
        }
    }
}

/// The keyed codes that the join is made from have the keys of the split file's entries,
/// and only the `glyphs` entry has the key `glyphs`.
proof fn lemma_joined_keys(es: Seq<SpecEntry>, ge: SpecEntry, gc: Seq<char>)
    requires
        entries_with_key(es, KEY_GLYPHS@) == seq![ge],
        ge.key == KEY_GLYPHS@,
        forall|k: int|
            0 <= k < entries_with_key(es, KEY_DISPLAY_STRINGS_STANDALONE@).len() ==> (
            #[trigger] entries_with_key(es, KEY_DISPLAY_STRINGS_STANDALONE@)[k]).key
                == KEY_DISPLAY_STRINGS_STANDALONE@,
    ensures
        joined_entries(es, gc).map_values(|kc: (Seq<char>, Seq<char>)| kc.0).to_multiset()
            == es.map_values(|e: SpecEntry| e.key).to_multiset(),
        pairs_with_key(joined_entries(es, gc), KEY_GLYPHS@) == seq![(KEY_GLYPHS@, gc)],
{
    broadcast use vstd::seq_lib::group_to_multiset_ensures;
    broadcast use vstd::multiset::group_multiset_axioms;
    broadcast use vstd::seq_lib::lemma_multiset_commutative;

    let gk = KEY_GLYPHS@;
    let dss = KEY_DISPLAY_STRINGS_STANDALONE@;
    lemma_keys_differ();
    lemma_fontinfo_part_keys(es);
    lemma_partition_keys(es);
    let fi = fontinfo_part(es);
    let ds = entries_with_key(es, dss);
    let kfi = keyed_codes(fi);
    let a = fi.map_values(|e: SpecEntry| e.key);
    let b = ds.map_values(|e: SpecEntry| e.key);
    let c = entries_with_key(es, gk).map_values(|e: SpecEntry| e.key);
    assert(c =~= Seq::<Seq<char>>::empty().push(gk));
    let base = kfi.push((gk, gc));
    let mbase = base.map_values(|kc: (Seq<char>, Seq<char>)| kc.0);
    assert(mbase =~= a.push(gk));
    let back = display_strings_back(ds);
    let mback = back.map_values(|kc: (Seq<char>, Seq<char>)| kc.0);
    assert(mback =~= b);
    assert forall|i: int| 0 <= i < kfi.len() implies (#[trigger] kfi[i]).0 != gk by {
        assert(kfi[i].0 == fi[i].key);
    }
    lemma_pairs_none(kfi, gk);
    lemma_pairs_concat(kfi, seq![(gk, gc)], gk);
    let one = seq![(gk, gc)];
    assert(base =~= kfi + one);
    assert(one.drop_last() =~= Seq::<(Seq<char>, Seq<char>)>::empty());
    assert(one.last() == (gk, gc));
    assert(pairs_with_key(Seq::<(Seq<char>, Seq<char>)>::empty(), gk) == Seq::<
        (Seq<char>, Seq<char>),
    >::empty());
    assert(pairs_with_key(one, gk) == pairs_with_key(one.drop_last(), gk).push(one.last()));
    assert(pairs_with_key(base, gk) =~= one);
    if ds.len() == 0 {
        assert(b =~= Seq::<Seq<char>>::empty());
        assert(b.to_multiset() =~= Multiset::empty());
        assert(joined_entries(es, gc) == base);
        assert(a.push(gk).to_multiset() =~= a.to_multiset().add(b.to_multiset()).add(
            c.to_multiset(),
        ));
    } else {
        assert(joined_entries(es, gc) == base + back);
        assert((base + back).map_values(|kc: (Seq<char>, Seq<char>)| kc.0) =~= mbase + mback);
        assert((mbase + mback).to_multiset() =~= mbase.to_multiset().add(mback.to_multiset()));
        assert(a.to_multiset().insert(gk).add(b.to_multiset()) =~= a.to_multiset().add(
            b.to_multiset(),
        ).add(c.to_multiset()));
        assert forall|i: int| 0 <= i < back.len() implies (#[trigger] back[i]).0 != gk by {}
        lemma_pairs_none(back, gk);
        lemma_pairs_concat(base, back, gk);
        assert(pairs_with_key(base + back, gk) =~= one);
    }
}

/// The join of a package's files, from what each of them gives.
proof fn lemma_unpack_value(
    es: Seq<SpecEntry>,
    fontinfo: Seq<char>,
    order: Seq<char>,
    files: Seq<Seq<char>>,
    ui_state: Option<Seq<char>>,
    ns: Seq<Seq<char>>,
    gc: Seq<char>,
)
    requires
        spec_fontinfo_entries(fontinfo) == Ok::<_, UnpackError>(keyed_codes(fontinfo_part(es))),
        spec_order_names(order) == Ok::<_, UnpackError>(ns),
        glyph_records(files) is Ok,
        spec_glyphs_entry(ns, glyph_records(files)->Ok_0) == Ok::<_, UnpackError>(gc),
        entries_with_key(es, KEY_DISPLAY_STRINGS_STANDALONE@).len() == 0 ==> ui_state is None,
        entries_with_key(es, KEY_DISPLAY_STRINGS_STANDALONE@).len() > 0 ==> ui_state is Some
            && spec_ui_state_entries(ui_state->0) == Ok::<_, UnpackError>(
            display_strings_back(entries_with_key(es, KEY_DISPLAY_STRINGS_STANDALONE@)),
        ),
    ensures
        spec_unpack(fontinfo, order, files, ui_state) == Ok::<_, UnpackError>(
            spec_standalone_text(joined_entries(es, gc)),
        ),
{
}

/// The package split from a standalone file, joined again: the keyed codes that the joined
/// file is made from, each an entry written on its own, with the keys and values of the
/// split file.
#[verifier::spinoff_prover]
proof fn lemma_unpack_of_pack(s: Seq<char>, glyph_files: Seq<Seq<char>>) -> (gc: Seq<char>)
    requires
        spec_pack(s) is Ok,
        entries_with_key(top_entries(s), KEY_GLYPHS@).len() == 1,
        forall|k: int|
            0 <= k < entries_with_key(top_entries(s), KEY_DISPLAY_STRINGS_STANDALONE@).len()
                ==> (#[trigger] entries_with_key(
                top_entries(s),
                KEY_DISPLAY_STRINGS_STANDALONE@,
            )[k]).value.value is Array || entries_with_key(
                top_entries(s),
                KEY_DISPLAY_STRINGS_STANDALONE@,
            )[k].value.value is String,
        well_named(standalone_glyphs(s)),
        glyph_files.to_multiset() == (spec_pack(s)->Ok_0).glyphs.map_values(
            |g: (Seq<char>, Seq<char>)| g.1,
        ).to_multiset(),
    ensures
        ({
            let pkg = spec_pack(s)->Ok_0;
            let all = joined_entries(top_entries(s), gc);
            &&& spec_unpack(pkg.fontinfo, pkg.order, glyph_files, pkg.ui_state) == Ok::<
                _,
                UnpackError,
            >(spec_standalone_text(all))
            &&& forall|i: int|
                0 <= i < all.len() ==> is_entry_code((#[trigger] all[i]).1, entry_of(all[i].1))
                    && entry_of(all[i].1).key == all[i].0
            &&& (forall|k: int|
                0 <= k < entries_with_key(top_entries(s), KEY_DISPLAY_STRINGS_STANDALONE@).len()
                    ==> (#[trigger] entries_with_key(
                    top_entries(s),
                    KEY_DISPLAY_STRINGS_STANDALONE@,
                )[k]).value.value is Array) ==> all.map_values(
                |kc: (Seq<char>, Seq<char>)| code_key_value(kc),
            ).to_multiset() == top_entries(s).map_values(|e: SpecEntry| key_value(e)).to_multiset()
            &&& all.map_values(|kc: (Seq<char>, Seq<char>)| kc.0).to_multiset() == top_entries(
                s,
            ).map_values(|e: SpecEntry| e.key).to_multiset()
            &&& pairs_with_key(all, KEY_GLYPHS@) == seq![(KEY_GLYPHS@, gc)]
            &&& entry_of(gc).value.value == entries_with_key(top_entries(s), KEY_GLYPHS@)[0].value.value
            &&& forall|i: int|
                0 <= i < fontinfo_part(top_entries(s)).len() ==> all[i] == (
                    (#[trigger] fontinfo_part(top_entries(s))[i]).key,
                    fontinfo_part(top_entries(s))[i].code,
                ) && entry_of(fontinfo_part(top_entries(s))[i].code) == fontinfo_part(
                    top_entries(s),
                )[i]
        }),
{
    let es = top_entries(s);
    let pkg = spec_pack(s)->Ok_0;
    let ge = lemma_split_facts(s);
    let p = pack_parts(es)->Ok_0;
    let ds = entries_with_key(es, KEY_DISPLAY_STRINGS_STANDALONE@);
    let gs = array_items(ge.value);
    let ns = gs.map_values(|g: SpecSlice| packed_name(g));
    lemma_glyphs_back(ge, glyph_files);
    let records = glyph_records(glyph_files)->Ok_0;
    let gc = spec_glyphs_entry(ns, records)->Ok_0;
    lemma_fontinfo_back(es);
    lemma_ui_back(ds);
    assert(pkg.fontinfo == dict_text(p.fontinfo));
    assert(pkg.order == array_text(p.order));
    assert(p.ui_state.len() == ds.len());
    lemma_unpack_value(es, pkg.fontinfo, pkg.order, glyph_files, pkg.ui_state, ns, gc);
    if forall|k: int| 0 <= k < ds.len() ==> (#[trigger] ds[k]).value.value is Array {
        lemma_joined_key_values(es, ge, gc);
    }
    lemma_joined_entry_codes(es, gc);
    lemma_joined_keys(es, ge, gc);
    gc
}

/// Law: a standalone file split into a package, whose files are then joined again (the glyph
/// files read in any order), gives a standalone file with the same entries: the same keys,
/// each with the same value; only the text around and between values may differ. This holds
/// of files with exactly one `glyphs` entry, whose `DisplayStrings` entries are arrays, and
/// whose glyphs are well named: distinct names that can be written unquoted, each read the
/// same from the front and from the back of its glyph.
pub proof fn law_pack_then_unpack(s: Seq<char>, glyph_files: Seq<Seq<char>>)
    requires
        spec_pack(s) is Ok,
        entries_with_key(top_entries(s), KEY_GLYPHS@).len() == 1,
        forall|k: int|
            0 <= k < entries_with_key(top_entries(s), KEY_DISPLAY_STRINGS_STANDALONE@).len()
                ==> (#[trigger] entries_with_key(
                top_entries(s),
                KEY_DISPLAY_STRINGS_STANDALONE@,
            )[k]).value.value is Array,
        well_named(standalone_glyphs(s)),
        glyph_files.to_multiset() == (spec_pack(s)->Ok_0).glyphs.map_values(
            |g: (Seq<char>, Seq<char>)| g.1,
        ).to_multiset(),
    ensures
        ({
            let pkg = spec_pack(s)->Ok_0;
            let u = spec_unpack(pkg.fontinfo, pkg.order, glyph_files, pkg.ui_state);
            &&& u is Ok
            &&& parse_root(Root::Dict, u->Ok_0) is Some
            &&& top_entries(u->Ok_0).map_values(|e: SpecEntry| key_value(e)).to_multiset()
                == top_entries(s).map_values(|e: SpecEntry| key_value(e)).to_multiset()
        }),
{
    let gc = lemma_unpack_of_pack(s, glyph_files);
    let all = joined_entries(top_entries(s), gc);
    lemma_standalone_reparses(all);
}

/// Law: a standalone file split into a package, whose files are then joined again (the glyph
/// files read in any order), gives a standalone file with the same keys, each as often;
/// with one `glyphs` entry that holds the same glyphs, in the same order; and with every
/// other entry but the display strings exactly as it was written: key, value and text.
/// This holds of files with exactly one `glyphs` entry, whose `DisplayStrings` entries are
/// arrays or strings, and whose glyphs are well named.
pub proof fn law_pack_then_unpack_keeps_entries(s: Seq<char>, glyph_files: Seq<Seq<char>>)
    requires
        spec_pack(s) is Ok,
        entries_with_key(top_entries(s), KEY_GLYPHS@).len() == 1,
        forall|k: int|
            0 <= k < entries_with_key(top_entries(s), KEY_DISPLAY_STRINGS_STANDALONE@).len()
                ==> (#[trigger] entries_with_key(
                top_entries(s),
                KEY_DISPLAY_STRINGS_STANDALONE@,
            )[k]).value.value is Array || entries_with_key(
                top_entries(s),
                KEY_DISPLAY_STRINGS_STANDALONE@,
            )[k].value.value is String,
        well_named(standalone_glyphs(s)),
        glyph_files.to_multiset() == (spec_pack(s)->Ok_0).glyphs.map_values(
            |g: (Seq<char>, Seq<char>)| g.1,
        ).to_multiset(),
    ensures
        ({
            let pkg = spec_pack(s)->Ok_0;
            let u = spec_unpack(pkg.fontinfo, pkg.order, glyph_files, pkg.ui_state);
            let es = top_entries(s);
            let es2 = top_entries(u->Ok_0);
            &&& u is Ok
            &&& parse_root(Root::Dict, u->Ok_0) is Some
            &&& es2.map_values(|e: SpecEntry| e.key).to_multiset() == es.map_values(
                |e: SpecEntry| e.key,
            ).to_multiset()
            &&& entries_with_key(es2, KEY_GLYPHS@).len() == 1
            &&& entries_with_key(es2, KEY_GLYPHS@)[0].value.value == entries_with_key(
                es,
                KEY_GLYPHS@,
            )[0].value.value
            &&& forall|i: int|
                0 <= i < fontinfo_part(es).len() ==> es2.contains(
                    #[trigger] fontinfo_part(es)[i],
                )
        }),
{
    broadcast use vstd::seq_lib::group_to_multiset_ensures;

    let es = top_entries(s);
    let gc = lemma_unpack_of_pack(s, glyph_files);
    let all = joined_entries(es, gc);
    lemma_standalone_reparses(all);
    lemma_one_glyphs_entry(all, gc);
    let sorted = sort_by_key(all);
    law_sort_by_key(all);
    let es2 = sorted.map_values(|kc: (Seq<char>, Seq<char>)| entry_of(kc.1));
    assert forall|i: int| 0 <= i < sorted.len() implies #[trigger] all.contains(sorted[i]) by {
        assert(sorted.contains(sorted[i]));
        assert(sorted.to_multiset().count(sorted[i]) > 0);
    }
    assert(es2.map_values(|e: SpecEntry| e.key) =~= sorted.map_values(
        |kc: (Seq<char>, Seq<char>)| kc.0,
    )) by {
        assert forall|i: int| 0 <= i < sorted.len() implies entry_of(sorted[i].1).key
            == #[trigger] sorted[i].0 by {
            assert(all.contains(sorted[i]));
            let m = choose|m: int| 0 <= m < all.len() && all[m] == sorted[i];
            assert(entry_of(all[m].1).key == all[m].0);
        }
    }
    lemma_map_multiset(sorted, all, |kc: (Seq<char>, Seq<char>)| kc.0);
    let fi = fontinfo_part(es);
    assert forall|i: int| 0 <= i < fi.len() implies es2.contains(#[trigger] fi[i]) by {
        let x = all[i];
        assert(x == (fi[i].key, fi[i].code));
        assert(all.contains(x));
        assert(all.to_multiset().count(x) > 0);
        assert(sorted.contains(x));
        let m = choose|m: int| 0 <= m < sorted.len() && sorted[m] == x;
        assert(es2[m] == entry_of(x.1));
    }
}

/// A name looked up to a code was found in a record of that name and code.
proof fn lemma_lookup_found(records: Seq<(Seq<char>, Seq<char>)>, n: Seq<char>)
    requires
        lookup(records, n) is Some,
    ensures
        exists|i: int| 0 <= i < records.len() && #[trigger] records[i] == (n, lookup(records, n)->0),
    decreases records.len(),
{
    if records.last().0 == n {
        assert(records[records.len() - 1] == (n, lookup(records, n)->0));
    } else {
        let front = records.drop_last();
        lemma_lookup_found(front, n);
        let i = choose|i: int| 0 <= i < front.len() && #[trigger] front[i] == (n, lookup(front, n)->0);
        assert(records[i] == front[i]);
    }
}

/// The records of glyph files: each file with the name that it gives.
proof fn lemma_records_shape(files: Seq<Seq<char>>)
    requires
        glyph_records(files) is Ok,
    ensures
        (glyph_records(files)->Ok_0).len() == files.len(),
        forall|i: int|
            0 <= i < files.len() ==> (#[trigger] (glyph_records(files)->Ok_0)[i]).1 == files[i]
                && spec_glyph_name(files[i]) == Ok::<_, GlyphNameError>(
                (glyph_records(files)->Ok_0)[i].0,
            ),
    decreases files.len(),
{
    if files.len() > 0 {
        let front = files.drop_last();
        lemma_records_shape(front);
        let r = glyph_records(files)->Ok_0;
        let rf = glyph_records(front)->Ok_0;
        assert forall|i: int| 0 <= i < files.len() implies (#[trigger] r[i]).1 == files[i]
            && spec_glyph_name(files[i]) == Ok::<_, GlyphNameError>(r[i].0) by {
            if i < front.len() {
                assert(r[i] == rf[i]);
                assert(front[i] == files[i]);
            }
        }
    }
}

/// The glyph codes: for each name of the order, the trimmed code that it is looked up to.
proof fn lemma_glyph_codes_shape(order: Seq<Seq<char>>, records: Seq<(Seq<char>, Seq<char>)>)
    requires
        glyph_codes(order, records) is Ok,
    ensures
        (glyph_codes(order, records)->Ok_0).len() == order.len(),
        forall|j: int|
            0 <= j < order.len() ==> lookup(records, #[trigger] order[j]) is Some && (glyph_codes(
                order,
                records,
            )->Ok_0)[j] == trim(lookup(records, order[j])->0),
    decreases order.len(),
{
    if order.len() > 0 {
        let front = order.drop_last();
        lemma_glyph_codes_shape(front, records);
        let c = glyph_codes(order, records)->Ok_0;
        let cf = glyph_codes(front, records)->Ok_0;
        assert forall|j: int| 0 <= j < order.len() implies lookup(records, #[trigger] order[j]) is Some
            && c[j] == trim(lookup(records, order[j])->0) by {
            if j < front.len() {
                assert(c[j] == cf[j]);
                assert(front[j] == order[j]);
            }
        }
    }
}

/// A file that holds a dictionary, then only white space.
pub open spec fn dict_file(f: Seq<char>) -> bool {
    &&& parse_dict(f, 0) is Some
    &&& forall|k: int| (parse_dict(f, 0)->0).1 <= k < f.len() ==> is_white_space(#[trigger] f[k])
}

/// Such a file, trimmed, is its dictionary written on its own.
proof fn lemma_trim_dict_file(f: Seq<char>)
    requires
        dict_file(f),
    ensures
        trim(f) == f.take((parse_dict(f, 0)->0).1),
        is_dict_code(trim(f), (parse_dict(f, 0)->0).0),
{
    let (g, e) = parse_dict(f, 0)->0;
    crate::framing::lemma_ends_dict(f, 0);
    crate::framing::lemma_ends_entries(f, 1);
    assert(f[e - 1] == '}');
    assert(f[0] == '{');
    assert(trim_start(f) == f);
    lemma_trim_end_to(f, e);
    let w = f.take(e);
    assert(crate::framing::same(f, w, 0, e, 0));
    crate::framing::lemma_frame_dict(f, w, 0, 0);
}

/// Trailing white space from `e` on is what trimming the end removes, when the character
/// before `e` is no white space.
proof fn lemma_trim_end_to(f: Seq<char>, e: int)
    requires
        0 < e <= f.len(),
        !is_white_space(f[e - 1]),
        forall|k: int| e <= k < f.len() ==> is_white_space(#[trigger] f[k]),
    ensures
        trim_end(f) == f.take(e),
    decreases f.len() - e,
{
    if e < f.len() {
        let u = f.drop_last();
        assert forall|k: int| e <= k < u.len() implies is_white_space(#[trigger] u[k]) by {
            assert(u[k] == f[k]);
        }
        assert(is_white_space(f[f.len() - 1]));
        lemma_trim_end_to(u, e);
        assert(u.take(e) =~= f.take(e));
    } else {
        assert(f.take(e) =~= f);
    }
}

/// The keyed codes with the key `k`, in order.
pub open spec fn pairs_with_key(s: Seq<(Seq<char>, Seq<char>)>, k: Seq<char>) -> Seq<
    (Seq<char>, Seq<char>),
>
    decreases s.len(),
{
    if s.len() == 0 {
        seq![]
    } else if s.last().0 == k {
        pairs_with_key(s.drop_last(), k).push(s.last())
    } else {
        pairs_with_key(s.drop_last(), k)
    }
}

proof fn lemma_pairs_count(s: Seq<(Seq<char>, Seq<char>)>, k: Seq<char>)
    ensures
        forall|x: (Seq<char>, Seq<char>)|
            #[trigger] pairs_with_key(s, k).to_multiset().count(x) == if x.0 == k {
                s.to_multiset().count(x)
            } else {
                0
            },
    decreases s.len(),
{
    broadcast use vstd::seq_lib::group_to_multiset_ensures;
    broadcast use vstd::multiset::group_multiset_axioms;

    if s.len() == 0 {
        assert(pairs_with_key(s, k).to_multiset() =~= Multiset::empty());
        assert(s.to_multiset() =~= Multiset::empty());
    } else {
        let front = s.drop_last();
        let y = s.last();
        lemma_pairs_count(front, k);
        assert(s =~= front.push(y));
        assert(s.to_multiset() =~= front.to_multiset().insert(y));
        if y.0 == k {
            assert(pairs_with_key(s, k).to_multiset() =~= pairs_with_key(front, k).to_multiset().insert(
                y,
            ));
        } else {
            assert(pairs_with_key(s, k) == pairs_with_key(front, k));
        }
        assert forall|x: (Seq<char>, Seq<char>)| #[trigger]
            pairs_with_key(s, k).to_multiset().count(x) == if x.0 == k {
                s.to_multiset().count(x)
            } else {
                0
            } by {
            assert(pairs_with_key(front, k).to_multiset().count(x) == if x.0 == k {
                front.to_multiset().count(x)
            } else {
                0
            });
        }
    }
}

/// Keyed codes with the same elements, counted, have the same ones with a given key.
proof fn lemma_pairs_perm(s1: Seq<(Seq<char>, Seq<char>)>, s2: Seq<(Seq<char>, Seq<char>)>, k: Seq<char>)
    requires
        s1.to_multiset() == s2.to_multiset(),
    ensures
        pairs_with_key(s1, k).to_multiset() == pairs_with_key(s2, k).to_multiset(),
{
    lemma_pairs_count(s1, k);
    lemma_pairs_count(s2, k);
    assert(pairs_with_key(s1, k).to_multiset() =~= pairs_with_key(s2, k).to_multiset());
}

proof fn lemma_pairs_none(s: Seq<(Seq<char>, Seq<char>)>, k: Seq<char>)
    requires
        forall|i: int| 0 <= i < s.len() ==> (#[trigger] s[i]).0 != k,
    ensures
        pairs_with_key(s, k) == Seq::<(Seq<char>, Seq<char>)>::empty(),
    decreases s.len(),
{
    if s.len() > 0 {
        let front = s.drop_last();
        assert forall|i: int| 0 <= i < front.len() implies (#[trigger] front[i]).0 != k by {
            assert(front[i] == s[i]);
        }
        lemma_pairs_none(front, k);
    }
}

proof fn lemma_pairs_concat(a: Seq<(Seq<char>, Seq<char>)>, b: Seq<(Seq<char>, Seq<char>)>, k: Seq<char>)
    ensures
        pairs_with_key(a + b, k) == pairs_with_key(a, k) + pairs_with_key(b, k),
    decreases b.len(),
{
    if b.len() == 0 {
        assert(a + b =~= a);
        assert(pairs_with_key(a, k) + pairs_with_key(b, k) =~= pairs_with_key(a, k));
    } else {
        lemma_pairs_concat(a, b.drop_last(), k);
        assert((a + b).drop_last() =~= a + b.drop_last());
        assert((a + b).last() == b.last());
        if b.last().0 == k {
            assert(pairs_with_key(a, k) + pairs_with_key(b, k) =~= (pairs_with_key(a, k)
                + pairs_with_key(b.drop_last(), k)).push(b.last()));
        }
    }
}

/// A multiset of one element is the sequence of that element.
proof fn lemma_single(s: Seq<(Seq<char>, Seq<char>)>, x: (Seq<char>, Seq<char>))
    requires
        s.to_multiset() == seq![x].to_multiset(),
    ensures
        s == seq![x],
{
    broadcast use vstd::seq_lib::group_to_multiset_ensures;

    assert(s.len() == s.to_multiset().len());
    assert(seq![x].len() == seq![x].to_multiset().len());
    assert(seq![x][0] == x);
    assert(seq![x].contains(x));
    assert(seq![x].to_multiset().count(x) > 0);
    assert(s.to_multiset().count(x) > 0);
    assert(s.contains(x));
    assert(s[0] == x);
    assert(s =~= seq![x]);
}

/// Keyed codes whose texts give entries of their keys: the entries with a key are those of
/// the codes with that key.
proof fn lemma_entries_of_pairs(s: Seq<(Seq<char>, Seq<char>)>, k: Seq<char>)
    requires
        forall|i: int| 0 <= i < s.len() ==> entry_of((#[trigger] s[i]).1).key == s[i].0,
    ensures
        entries_with_key(s.map_values(|kc: (Seq<char>, Seq<char>)| entry_of(kc.1)), k)
            == pairs_with_key(s, k).map_values(|kc: (Seq<char>, Seq<char>)| entry_of(kc.1)),
    decreases s.len(),
{
    let es = s.map_values(|kc: (Seq<char>, Seq<char>)| entry_of(kc.1));
    if s.len() == 0 {
        assert(pairs_with_key(s, k).map_values(|kc: (Seq<char>, Seq<char>)| entry_of(kc.1))
            =~= Seq::<SpecEntry>::empty());
    } else {
        let front = s.drop_last();
        assert forall|i: int| 0 <= i < front.len() implies entry_of((#[trigger] front[i]).1).key
            == front[i].0 by {
            assert(front[i] == s[i]);
        }
        lemma_entries_of_pairs(front, k);
        assert(es.drop_last() =~= front.map_values(|kc: (Seq<char>, Seq<char>)| entry_of(kc.1)));
        assert(es.last() == entry_of(s.last().1));
        assert(entry_of(s[s.len() - 1].1).key == s[s.len() - 1].0);
        if s.last().0 == k {
            assert(pairs_with_key(s, k).map_values(|kc: (Seq<char>, Seq<char>)| entry_of(kc.1))
                =~= pairs_with_key(front, k).map_values(
                |kc: (Seq<char>, Seq<char>)| entry_of(kc.1),
            ).push(entry_of(s.last().1)));
        }
    }
}

/// Glyphs that are dictionaries with a glyph name are split without error.
proof fn lemma_add_glyphs_ok(p: SpecParts, gs: Seq<SpecSlice>)
    requires
        forall|j: int|
            0 <= j < gs.len() ==> (#[trigger] gs[j]).value is Dict && glyph_name_of(
                dict_entries(gs[j]),
            ) == Ok::<_, PackError>(Some(packed_name(gs[j]))),
    ensures
        add_glyphs(p, gs) is Ok,
    decreases gs.len(),
{
    if gs.len() > 0 {
        let front = gs.drop_last();
        assert forall|j: int| 0 <= j < front.len() implies (#[trigger] front[j]).value is Dict
            && glyph_name_of(dict_entries(front[j])) == Ok::<_, PackError>(
            Some(packed_name(front[j])),
        ) by {
            assert(front[j] == gs[j]);
        }
        lemma_add_glyphs_ok(p, front);
        assert(gs[gs.len() - 1] == gs.last());
    }
}

/// Entries whose `glyphs` entries are arrays of dictionaries with glyph names are split
/// without error.
proof fn lemma_pack_parts_ok(es: Seq<SpecEntry>)
    requires
        forall|k: int|
            0 <= k < entries_with_key(es, KEY_GLYPHS@).len() ==> (#[trigger] entries_with_key(
                es,
                KEY_GLYPHS@,
            )[k]).value.value is Array && forall|j: int|
                0 <= j < array_items(entries_with_key(es, KEY_GLYPHS@)[k].value).len() ==> (
                #[trigger] array_items(entries_with_key(es, KEY_GLYPHS@)[k].value)[j]).value is Dict
                    && glyph_name_of(
                    dict_entries(array_items(entries_with_key(es, KEY_GLYPHS@)[k].value)[j]),
                ) == Ok::<_, PackError>(
                    Some(packed_name(array_items(entries_with_key(es, KEY_GLYPHS@)[k].value)[j])),
                ),
    ensures
        pack_parts(es) is Ok,
    decreases es.len(),
{
    if es.len() > 0 {
        let gk = KEY_GLYPHS@;
        let front = es.drop_last();
        let e = es.last();
        let ges = entries_with_key(es, gk);
        let fges = entries_with_key(front, gk);
        if e.key == gk {
            assert(ges == fges.push(e));
            assert forall|k: int| 0 <= k < fges.len() implies #[trigger] fges[k] == ges[k] by {}
        } else {
            assert(ges == fges);
        }
        lemma_pack_parts_ok(front);
        let q = pack_parts(front)->Ok_0;
        if e.key == gk && e.key != KEY_DISPLAY_STRINGS_STANDALONE@ {
            assert(ges[ges.len() - 1] == e);
            lemma_add_glyphs_ok(q, array_items(e.value));
        }
    }
}

/// The dictionary that a file starts with.
pub open spec fn dict_value(f: Seq<char>) -> SpecSlice {
    (parse_dict(f, 0)->0).0
}

/// The keyed codes that a standalone file is joined from: the font info's entries, the
/// `glyphs` entry `gc`, and the entries of the UI state when there is one.
pub open spec fn unpack_entries(
    fontinfo: Seq<char>,
    ui_state: Option<Seq<char>>,
    gc: Seq<char>,
) -> Seq<(Seq<char>, Seq<char>)> {
    let base = keyed_codes(top_entries(fontinfo)).push((KEY_GLYPHS@, gc));
    match ui_state {
        None => base,
        Some(u) => base + top_entries(u).map_values(|e: SpecEntry| ui_state_entry(e)),
    }
}

/// The code of the `glyphs` entry of a join that succeeds.
pub open spec fn unpack_glyphs_code(order: Seq<char>, files: Seq<Seq<char>>) -> Seq<char> {
    spec_glyphs_entry(spec_order_names(order)->Ok_0, glyph_records(files)->Ok_0)->Ok_0
}

/// A join that succeeds is the standalone text of its keyed codes.
proof fn lemma_unpack_is(
    fontinfo: Seq<char>,
    order: Seq<char>,
    files: Seq<Seq<char>>,
    ui_state: Option<Seq<char>>,
)
    requires
        spec_unpack(fontinfo, order, files, ui_state) is Ok,
    ensures
        spec_unpack(fontinfo, order, files, ui_state) == Ok::<_, UnpackError>(
            spec_standalone_text(
                unpack_entries(fontinfo, ui_state, unpack_glyphs_code(order, files)),
            ),
        ),
        spec_order_names(order) is Ok,
        glyph_records(files) is Ok,
        spec_glyphs_entry(spec_order_names(order)->Ok_0, glyph_records(files)->Ok_0) is Ok,
        parse_dict(fontinfo, 0) is Some,
        ui_state is Some ==> parse_dict(ui_state->0, 0) is Some,
{
}

/// Glyph files that each hold a dictionary and then only white space, with one glyph name:
/// the glyph codes that the order is joined from are those dictionaries written on their
/// own, named as the order names them.
proof fn lemma_glyph_values(ns: Seq<Seq<char>>, files: Seq<Seq<char>>)
    requires
        glyph_records(files) is Ok,
        glyph_codes(ns, glyph_records(files)->Ok_0) is Ok,
        forall|i: int|
            0 <= i < files.len() ==> dict_file(#[trigger] files[i]) && one_glyph_name(
                dict_value(files[i]),
            ),
    ensures
        ({
            let cs = glyph_codes(ns, glyph_records(files)->Ok_0)->Ok_0;
            let xs = cs.map_values(|w: Seq<char>| (parse_value(w, 0)->0).0);
            &&& cs.len() == ns.len()
            &&& forall|j: int|
                0 <= j < cs.len() ==> is_dict_code(#[trigger] cs[j], xs[j])
                    && xs[j].value is Dict && glyph_name_of(dict_entries(xs[j])) == Ok::<
                    _,
                    PackError,
                >(Some(packed_name(xs[j]))) && packed_name(xs[j]) == ns[j]
        }),
{
    let rs = glyph_records(files)->Ok_0;
    let cs = glyph_codes(ns, rs)->Ok_0;
    let xs = cs.map_values(|w: Seq<char>| (parse_value(w, 0)->0).0);
    lemma_records_shape(files);
    lemma_glyph_codes_shape(ns, rs);
    assert forall|j: int| 0 <= j < cs.len() implies is_dict_code(#[trigger] cs[j], xs[j])
        && xs[j].value is Dict && glyph_name_of(dict_entries(xs[j])) == Ok::<_, PackError>(
        Some(packed_name(xs[j])),
    ) && packed_name(xs[j]) == ns[j] by {
        assert(lookup(rs, ns[j]) is Some);
        let c = lookup(rs, ns[j])->0;
        lemma_lookup_found(rs, ns[j]);
        let i = choose|i: int| 0 <= i < rs.len() && #[trigger] rs[i] == (ns[j], c);
        let f = files[i];
        assert(rs[i].1 == f);
        assert(dict_file(f));
        lemma_trim_dict_file(f);
        let g = dict_value(f);
        assert(cs[j] == trim(c));
        assert(is_dict_code(cs[j], g));
        assert(xs[j] == g);
        assert(spec_glyph_name(f) == Ok::<_, GlyphNameError>(ns[j]));
        assert(one_glyph_name(g));
    }
}

/// No entry has a key when none is listed under it.
proof fn lemma_no_key(es: Seq<SpecEntry>, k: Seq<char>)
    requires
        entries_with_key(es, k).len() == 0,
    ensures
        forall|i: int| 0 <= i < es.len() ==> (#[trigger] es[i]).key != k,
    decreases es.len(),
{
    if es.len() > 0 {
        lemma_no_key(es.drop_last(), k);
        assert forall|i: int| 0 <= i < es.len() implies (#[trigger] es[i]).key != k by {
            if i < es.len() - 1 {
                assert(es[i] == es.drop_last()[i]);
            }
        }
    }
}

/// Entries whose `glyphs` entries, if they have any, are empty arrays.
pub open spec fn glyphs_empty(es: Seq<SpecEntry>) -> bool {
    forall|k: int|
        0 <= k < es.len() && (#[trigger] es[k]).key == KEY_GLYPHS@ ==> es[k].value.value
            == SpecValue::Array(Seq::<SpecSlice>::empty())
}

/// Entries whose `displayStrings` entries are arrays or strings.
pub open spec fn display_strings_plain(es: Seq<SpecEntry>) -> bool {
    forall|k: int|
        0 <= k < es.len() && (#[trigger] es[k]).key == KEY_DISPLAY_STRINGS_PACKAGE@ ==> (
        es[k].value.value is Array || es[k].value.value is String)
}

/// The entries of a UI state as a standalone file writes them are entries written on their
/// own, under their keys; those with the key `glyphs` are empty arrays.
proof fn lemma_ui_entries_codes(u: Seq<char>)
    requires
        parse_dict(u, 0) is Some,
        glyphs_empty(top_entries(u)),
        display_strings_plain(top_entries(u)),
    ensures
        ({
            let ue = top_entries(u).map_values(|e: SpecEntry| ui_state_entry(e));
            forall|i: int|
                0 <= i < ue.len() ==> is_entry_code((#[trigger] ue[i]).1, entry_of(ue[i].1))
                    && entry_of(ue[i].1).key == ue[i].0 && (ue[i].0 == KEY_GLYPHS@ ==> entry_of(
                    ue[i].1,
                ).value.value == SpecValue::Array(Seq::<SpecSlice>::empty()))
        }),
{
    let gk = KEY_GLYPHS@;
    let dsp = KEY_DISPLAY_STRINGS_PACKAGE@;
    let dss = KEY_DISPLAY_STRINGS_STANDALONE@;
    lemma_keys_bare();
    lemma_keys_differ();
    let ues = top_entries(u);
    law_dict_entries_are_codes(u, 0);
    let ue = ues.map_values(|e: SpecEntry| ui_state_entry(e));
    assert forall|i: int| 0 <= i < ue.len() implies is_entry_code(
        (#[trigger] ue[i]).1,
        entry_of(ue[i].1),
    ) && entry_of(ue[i].1).key == ue[i].0 && (ue[i].0 == gk ==> entry_of(ue[i].1).value.value
        == SpecValue::Array(Seq::<SpecSlice>::empty())) by {
        let e = ues[i];
        assert(ue[i] == ui_state_entry(e));
        assert(is_entry_code(e.code, e));
        if e.key == dsp {
            lemma_array_code_keyed(dss, e.value.code);
            if e.value.value is Array {
                lemma_array_entry_rekeyed(e, dss);
            } else {
                law_keyed_string_code(dss, e);
            }
        } else {
            lemma_entry_of(e);
        }
    }
}

/// The entries of a font info, each with its code, are entries written on their own, under
/// their keys; those with the key `glyphs` are empty arrays.
proof fn lemma_fontinfo_entries_codes(fontinfo: Seq<char>)
    requires
        parse_dict(fontinfo, 0) is Some,
        glyphs_empty(top_entries(fontinfo)),
    ensures
        ({
            let kfi = keyed_codes(top_entries(fontinfo));
            forall|i: int|
                0 <= i < kfi.len() ==> is_entry_code((#[trigger] kfi[i]).1, entry_of(kfi[i].1))
                    && entry_of(kfi[i].1).key == kfi[i].0 && (kfi[i].0 == KEY_GLYPHS@ ==> entry_of(
                    kfi[i].1,
                ).value.value == SpecValue::Array(Seq::<SpecSlice>::empty()))
        }),
{
    let fes = top_entries(fontinfo);
    law_dict_entries_are_codes(fontinfo, 0);
    let kfi = keyed_codes(fes);
    assert forall|i: int| 0 <= i < kfi.len() implies is_entry_code(
        (#[trigger] kfi[i]).1,
        entry_of(kfi[i].1),
    ) && entry_of(kfi[i].1).key == kfi[i].0 && (kfi[i].0 == KEY_GLYPHS@ ==> entry_of(
        kfi[i].1,
    ).value.value == SpecValue::Array(Seq::<SpecSlice>::empty())) by {
        assert(kfi[i] == (fes[i].key, fes[i].code));
        assert(is_entry_code(fes[i].code, fes[i]));
        lemma_entry_of(fes[i]);
    }
}

/// Keyed codes none of which is `x`: `x` is counted no times.
proof fn lemma_not_counted(s: Seq<(Seq<char>, Seq<char>)>, x: (Seq<char>, Seq<char>))
    requires
        forall|i: int| 0 <= i < s.len() ==> #[trigger] s[i] != x,
    ensures
        s.to_multiset().count(x) == 0,
{
    broadcast use vstd::seq_lib::group_to_multiset_ensures;

    if s.contains(x) {
        let i = choose|i: int| 0 <= i < s.len() && s[i] == x;
        assert(s[i] != x);
    }
}

/// The keyed codes that a join is made from are entries written on their own, under their
/// keys; those with the key `glyphs` other than the `glyphs` entry `gc` are empty arrays,
/// and when `gc` holds glyphs it is there once.
proof fn lemma_unpack_entries_codes(fontinfo: Seq<char>, ui_state: Option<Seq<char>>, gc: Seq<char>)
    requires
        parse_dict(fontinfo, 0) is Some,
        ui_state is Some ==> parse_dict(ui_state->0, 0) is Some,
        is_entry_code(gc, entry_of(gc)),
        entry_of(gc).key == KEY_GLYPHS@,
        entry_of(gc).value.value is Array,
        glyphs_empty(top_entries(fontinfo)),
        ui_state is Some ==> glyphs_empty(top_entries(ui_state->0)),
        ui_state is Some ==> display_strings_plain(top_entries(ui_state->0)),
    ensures
        ({
            let all = unpack_entries(fontinfo, ui_state, gc);
            &&& forall|i: int|
                0 <= i < all.len() ==> is_entry_code((#[trigger] all[i]).1, entry_of(all[i].1))
                    && entry_of(all[i].1).key == all[i].0
            &&& forall|i: int|
                0 <= i < all.len() && (#[trigger] all[i]).0 == KEY_GLYPHS@ ==> all[i] == (
                    KEY_GLYPHS@,
                    gc,
                ) || entry_of(all[i].1).value.value == SpecValue::Array(Seq::<SpecSlice>::empty())
            &&& array_items(entry_of(gc).value).len() > 0 ==> all.to_multiset().count(
                (KEY_GLYPHS@, gc),
            ) == 1
        }),
{
    broadcast use vstd::seq_lib::group_to_multiset_ensures;
    broadcast use vstd::multiset::group_multiset_axioms;
    broadcast use vstd::seq_lib::lemma_multiset_commutative;

    let gk = KEY_GLYPHS@;
    let x = (gk, gc);
    let kfi = keyed_codes(top_entries(fontinfo));
    lemma_fontinfo_entries_codes(fontinfo);
    let base = kfi.push(x);
    let all = unpack_entries(fontinfo, ui_state, gc);
    let full = array_items(entry_of(gc).value).len() > 0;
    if full {
        assert forall|i: int| 0 <= i < kfi.len() implies #[trigger] kfi[i] != x by {
            if kfi[i] == x {
                assert(entry_of(kfi[i].1).value.value == SpecValue::Array(Seq::<SpecSlice>::empty()));
            }
        }
        lemma_not_counted(kfi, x);
        assert(base.to_multiset().count(x) == 1);
    }
    match ui_state {
        None => {
            assert(all == base);
            assert forall|i: int| 0 <= i < all.len() implies is_entry_code(
                (#[trigger] all[i]).1,
                entry_of(all[i].1),
            ) && entry_of(all[i].1).key == all[i].0 && (all[i].0 == gk ==> all[i] == x
                || entry_of(all[i].1).value.value == SpecValue::Array(Seq::<SpecSlice>::empty())) by {
                if i < kfi.len() {
                    assert(all[i] == kfi[i]);
                }
            }
        },
        Some(u) => {
            lemma_ui_entries_codes(u);
            let ue = top_entries(u).map_values(|e: SpecEntry| ui_state_entry(e));
            assert(all == base + ue);
            assert forall|i: int| 0 <= i < all.len() implies is_entry_code(
                (#[trigger] all[i]).1,
                entry_of(all[i].1),
            ) && entry_of(all[i].1).key == all[i].0 && (all[i].0 == gk ==> all[i] == x
                || entry_of(all[i].1).value.value == SpecValue::Array(Seq::<SpecSlice>::empty())) by {
                if i < kfi.len() {
                    assert(all[i] == kfi[i]);
                } else if i > kfi.len() {
                    assert(all[i] == ue[i - kfi.len() - 1]);
                }
            }
            if full {
                assert forall|i: int| 0 <= i < ue.len() implies #[trigger] ue[i] != x by {
                    if ue[i] == x {
                        assert(entry_of(ue[i].1).value.value == SpecValue::Array(
                            Seq::<SpecSlice>::empty(),
                        ));
                    }
                }
                lemma_not_counted(ue, x);
                assert((base + ue).to_multiset() =~= base.to_multiset().add(ue.to_multiset()));
            }
        },
    }
}

/// The keyed codes with a key are keyed codes of the whole, under that key.
proof fn lemma_pairs_in(s: Seq<(Seq<char>, Seq<char>)>, k: Seq<char>)
    ensures
        forall|i: int|
            0 <= i < pairs_with_key(s, k).len() ==> s.contains(#[trigger] pairs_with_key(s, k)[i])
                && pairs_with_key(s, k)[i].0 == k,
    decreases s.len(),
{
    if s.len() > 0 {
        let front = s.drop_last();
        lemma_pairs_in(front, k);
        let ps = pairs_with_key(s, k);
        let pf = pairs_with_key(front, k);
        assert forall|i: int| 0 <= i < ps.len() implies s.contains(#[trigger] ps[i]) && ps[i].0
            == k by {
            if i < pf.len() {
                assert(ps[i] == pf[i]);
                let m = choose|m: int| 0 <= m < front.len() && front[m] == pf[i];
                assert(s[m] == front[m]);
            } else {
                assert(ps[i] == s[s.len() - 1]);
            }
        }
    }
}

/// Entries given by keyed codes whose arrays are all empty hold no glyphs together.
proof fn lemma_glyph_items_none(ps: Seq<(Seq<char>, Seq<char>)>)
    requires
        forall|i: int| 0 <= i < ps.len() ==> array_items(entry_of((#[trigger] ps[i]).1).value).len() == 0,
    ensures
        glyph_items(ps.map_values(|p: (Seq<char>, Seq<char>)| entry_of(p.1))) == Seq::<SpecSlice>::empty(),
    decreases ps.len(),
{
    let es = ps.map_values(|p: (Seq<char>, Seq<char>)| entry_of(p.1));
    if ps.len() > 0 {
        let front = ps.drop_last();
        assert forall|i: int| 0 <= i < front.len() implies array_items(
            entry_of((#[trigger] front[i]).1).value,
        ).len() == 0 by {
            assert(front[i] == ps[i]);
        }
        lemma_glyph_items_none(front);
        assert(es.drop_last() =~= front.map_values(|p: (Seq<char>, Seq<char>)| entry_of(p.1)));
        assert(es.last() == entry_of(ps[ps.len() - 1].1));
        assert(array_items(es.last().value) =~= Seq::<SpecSlice>::empty());
        assert(glyph_items(es) =~= Seq::<SpecSlice>::empty());
    }
}

/// Entries given by keyed codes that hold `x` once, and otherwise only empty arrays, hold
/// the glyphs of `x` together.
proof fn lemma_glyph_items_one(ps: Seq<(Seq<char>, Seq<char>)>, x: (Seq<char>, Seq<char>))
    requires
        forall|i: int|
            0 <= i < ps.len() && #[trigger] ps[i] != x ==> array_items(entry_of(ps[i].1).value).len()
                == 0,
        ps.to_multiset().count(x) == 1,
    ensures
        glyph_items(ps.map_values(|p: (Seq<char>, Seq<char>)| entry_of(p.1))) == array_items(
            entry_of(x.1).value,
        ),
    decreases ps.len(),
{
    broadcast use vstd::seq_lib::group_to_multiset_ensures;
    broadcast use vstd::multiset::group_multiset_axioms;

    let es = ps.map_values(|p: (Seq<char>, Seq<char>)| entry_of(p.1));
    let front = ps.drop_last();
    let last = ps.last();
    assert(ps.len() > 0) by {
        if ps.len() == 0 {
            assert(ps.to_multiset() =~= Multiset::empty());
        }
    }
    assert(ps =~= front.push(last));
    assert(es.drop_last() =~= front.map_values(|p: (Seq<char>, Seq<char>)| entry_of(p.1)));
    assert(es.last() == entry_of(last.1));
    assert forall|i: int| 0 <= i < front.len() && #[trigger] front[i] != x implies array_items(
        entry_of(front[i].1).value,
    ).len() == 0 by {
        assert(front[i] == ps[i]);
    }
    if last == x {
        assert(front.to_multiset().count(x) == 0);
        assert forall|i: int| 0 <= i < front.len() implies array_items(
            entry_of((#[trigger] front[i]).1).value,
        ).len() == 0 by {
            if front[i] == x {
                assert(front.contains(x));
            }
        }
        lemma_glyph_items_none(front);
        assert(glyph_items(es) =~= array_items(entry_of(x.1).value));
    } else {
        assert(front.to_multiset().count(x) == 1);
        lemma_glyph_items_one(front, x);
        assert(ps[ps.len() - 1] == last);
        assert(array_items(es.last().value) =~= Seq::<SpecSlice>::empty());
        assert(glyph_items(es) =~= array_items(entry_of(x.1).value));
    }
}

/// Keyed codes written as a standalone file and read back, when the `glyphs` entry `gc` is
/// there (once, if it holds glyphs) and every other code under the key `glyphs` is an empty
/// array: the `glyphs` entries read back hold the glyphs of `gc`, and each is `gc`'s entry
/// or an empty array.
proof fn lemma_glyph_entries_back(all: Seq<(Seq<char>, Seq<char>)>, gc: Seq<char>)
    requires
        forall|i: int|
            0 <= i < all.len() ==> is_entry_code((#[trigger] all[i]).1, entry_of(all[i].1))
                && entry_of(all[i].1).key == all[i].0,
        forall|i: int|
            0 <= i < all.len() && (#[trigger] all[i]).0 == KEY_GLYPHS@ ==> all[i] == (
                KEY_GLYPHS@,
                gc,
            ) || entry_of(all[i].1).value.value == SpecValue::Array(Seq::<SpecSlice>::empty()),
        array_items(entry_of(gc).value).len() > 0 ==> all.to_multiset().count((KEY_GLYPHS@, gc))
            == 1,
    ensures
        parse_root(Root::Dict, spec_standalone_text(all)) is Some,
        ({
            let ges2 = entries_with_key(
                dict_entries(parse_root(Root::Dict, spec_standalone_text(all))->0),
                KEY_GLYPHS@,
            );
            &&& glyph_items(ges2) == array_items(entry_of(gc).value)
            &&& forall|k: int|
                0 <= k < ges2.len() ==> #[trigger] ges2[k] == entry_of(gc) || ges2[k].value.value
                    == SpecValue::Array(Seq::<SpecSlice>::empty())
        }),
{
    broadcast use vstd::seq_lib::group_to_multiset_ensures;

    let gk = KEY_GLYPHS@;
    let x = (gk, gc);
    lemma_standalone_reparses(all);
    let sorted = sort_by_key(all);
    law_sort_by_key(all);
    assert forall|i: int| 0 <= i < sorted.len() implies #[trigger] all.contains(sorted[i]) by {
        assert(sorted.contains(sorted[i]));
        assert(sorted.to_multiset().count(sorted[i]) > 0);
    }
    assert forall|i: int| 0 <= i < sorted.len() implies entry_of((#[trigger] sorted[i]).1).key
        == sorted[i].0 by {
        assert(all.contains(sorted[i]));
        let m = choose|m: int| 0 <= m < all.len() && all[m] == sorted[i];
        assert(entry_of(all[m].1).key == all[m].0);
    }
    lemma_entries_of_pairs(sorted, gk);
    let ps = pairs_with_key(sorted, gk);
    lemma_pairs_in(sorted, gk);
    lemma_pairs_count(sorted, gk);
    assert forall|i: int| 0 <= i < ps.len() && #[trigger] ps[i] != x implies array_items(
        entry_of(ps[i].1).value,
    ).len() == 0 && entry_of(ps[i].1).value.value == SpecValue::Array(Seq::<SpecSlice>::empty()) by {
        assert(sorted.contains(ps[i]));
        let n = choose|n: int| 0 <= n < sorted.len() && sorted[n] == ps[i];
        assert(all.contains(sorted[n]));
        let m = choose|m: int| 0 <= m < all.len() && all[m] == ps[i];
        assert(all[m].0 == gk);
    }
    let ges2 = ps.map_values(|p: (Seq<char>, Seq<char>)| entry_of(p.1));
    if array_items(entry_of(gc).value).len() > 0 {
        assert(ps.to_multiset().count(x) == sorted.to_multiset().count(x));
        lemma_glyph_items_one(ps, x);
    } else {
        assert forall|i: int| 0 <= i < ps.len() implies array_items(
            entry_of((#[trigger] ps[i]).1).value,
        ).len() == 0 by {
            if ps[i] != x {
            }
        }
        lemma_glyph_items_none(ps);
    }
    assert forall|k: int| 0 <= k < ges2.len() implies #[trigger] ges2[k] == entry_of(gc)
        || ges2[k].value.value == SpecValue::Array(Seq::<SpecSlice>::empty()) by {
        assert(ges2[k] == entry_of(ps[k].1));
        if ps[k] != x {
        }
    }
}

/// Keyed codes written as a standalone file and read back, when exactly one of them has the
/// key `glyphs`: the one `glyphs` entry read back is the one that its code gives.
proof fn lemma_one_glyphs_entry(all: Seq<(Seq<char>, Seq<char>)>, gc: Seq<char>)
    requires
        forall|i: int|
            0 <= i < all.len() ==> is_entry_code((#[trigger] all[i]).1, entry_of(all[i].1))
                && entry_of(all[i].1).key == all[i].0,
        pairs_with_key(all, KEY_GLYPHS@) == seq![(KEY_GLYPHS@, gc)],
    ensures
        parse_root(Root::Dict, spec_standalone_text(all)) is Some,
        entries_with_key(
            dict_entries(parse_root(Root::Dict, spec_standalone_text(all))->0),
            KEY_GLYPHS@,
        ) == seq![entry_of(gc)],
{
    broadcast use vstd::seq_lib::group_to_multiset_ensures;

    let gk = KEY_GLYPHS@;
    lemma_standalone_reparses(all);
    let sorted = sort_by_key(all);
    law_sort_by_key(all);
    lemma_pairs_perm(sorted, all, gk);
    lemma_single(pairs_with_key(sorted, gk), (gk, gc));
    assert forall|i: int| 0 <= i < sorted.len() implies entry_of((#[trigger] sorted[i]).1).key
        == sorted[i].0 by {
        let x = sorted[i];
        assert(sorted.contains(x));
        assert(sorted.to_multiset().count(x) > 0);
        assert(all.to_multiset().count(x) > 0);
        assert(all.contains(x));
        let m = choose|m: int| 0 <= m < all.len() && all[m] == x;
        assert(entry_of(all[m].1).key == all[m].0);
    }
    lemma_entries_of_pairs(sorted, gk);
    assert(seq![(gk, gc)].map_values(|kc: (Seq<char>, Seq<char>)| entry_of(kc.1)) =~= seq![
        entry_of(gc),
    ]);
}

/// Law: a package joined into a standalone file, which is then split again, gives a package
/// whose glyph files are named after the glyphs of the order, in order, and whose order file
/// lists those names. This holds of packages whose font info and UI state have no `glyphs`
/// entry but empty arrays, whose UI state's `displayStrings` are arrays or strings, and
/// whose glyph files each hold a dictionary, then only white space, with one glyph name.
pub proof fn law_unpack_then_pack(
    fontinfo: Seq<char>,
    order: Seq<char>,
    files: Seq<Seq<char>>,
    ui_state: Option<Seq<char>>,
)
    requires
        spec_unpack(fontinfo, order, files, ui_state) is Ok,
        glyphs_empty(top_entries(fontinfo)),
        ui_state is Some ==> glyphs_empty(top_entries(ui_state->0)),
        ui_state is Some ==> display_strings_plain(top_entries(ui_state->0)),
        forall|i: int|
            0 <= i < files.len() ==> dict_file(#[trigger] files[i]) && one_glyph_name(
                dict_value(files[i]),
            ),
    ensures
        ({
            let u = spec_unpack(fontinfo, order, files, ui_state)->Ok_0;
            let ns = spec_order_names(order)->Ok_0;
            &&& spec_pack(u) is Ok
            &&& (spec_pack(u)->Ok_0).glyphs.map_values(|g: (Seq<char>, Seq<char>)| g.0)
                == ns.map_values(|n: Seq<char>| spec_glyph_filename(n))
            &&& (spec_pack(u)->Ok_0).order == array_text(ns)
        }),
{
    let gk = KEY_GLYPHS@;
    lemma_unpack_is(fontinfo, order, files, ui_state);
    let ns = spec_order_names(order)->Ok_0;
    let rs = glyph_records(files)->Ok_0;
    let cs = glyph_codes(ns, rs)->Ok_0;
    let gc = unpack_glyphs_code(order, files);
    assert(gc == glyphs_code(cs));
    lemma_glyph_values(ns, files);
    let xs = cs.map_values(|w: Seq<char>| (parse_value(w, 0)->0).0);
    lemma_keys_bare();
    law_keyed_values_code(gk, cs, xs);
    lemma_glyphs_code_keyed(cs);
    let ge2 = entry_of(gc);
    assert(is_entry_code(gc, ge2) && ge2.key == gk && ge2.value.value == SpecValue::Array(xs));
    lemma_unpack_entries_codes(fontinfo, ui_state, gc);
    let all = unpack_entries(fontinfo, ui_state, gc);
    let u = spec_standalone_text(all);
    lemma_glyph_entries_back(all, gc);
    let es2 = dict_entries(parse_root(Root::Dict, u)->0);
    let ges2 = entries_with_key(es2, gk);
    assert(array_items(ge2.value) == xs);
    assert forall|k: int| 0 <= k < ges2.len() implies (#[trigger] ges2[k]).value.value is Array
        && forall|j: int|
        0 <= j < array_items(ges2[k].value).len() ==> (#[trigger] array_items(
            ges2[k].value,
        )[j]).value is Dict && glyph_name_of(dict_entries(array_items(ges2[k].value)[j])) == Ok::<
            _,
            PackError,
        >(Some(packed_name(array_items(ges2[k].value)[j]))) by {
        if ges2[k] != ge2 {
            assert(array_items(ges2[k].value) =~= Seq::<SpecSlice>::empty());
        }
    }
    lemma_pack_parts_ok(es2);
    lemma_pack_parts_shape(es2);
    let p2 = pack_parts(es2)->Ok_0;
    assert(glyph_items(ges2) == xs);
    assert(spec_pack(u) == pack_entries(es2));
    assert(spec_pack(u) == Ok::<_, PackError>(package_of(p2)));
    assert(p2.order =~= ns);
    assert(package_of(p2).glyphs.map_values(|g: (Seq<char>, Seq<char>)| g.0) =~= ns.map_values(
        |n: Seq<char>| spec_glyph_filename(n),
    ));
}

/// Law: a package whose glyph files are named after their glyphs, and whose order names
/// each glyph of the files once, joined into a standalone file and split again, gives glyph
/// files with the same names (in the order's order). The package must be one that
/// `law_unpack_then_pack` speaks of.
pub proof fn law_unpack_then_pack_keeps_file_names(
    fontinfo: Seq<char>,
    order: Seq<char>,
    files: Seq<Seq<char>>,
    ui_state: Option<Seq<char>>,
    file_names: Seq<Seq<char>>,
)
    requires
        spec_unpack(fontinfo, order, files, ui_state) is Ok,
        glyphs_empty(top_entries(fontinfo)),
        ui_state is Some ==> glyphs_empty(top_entries(ui_state->0)),
        ui_state is Some ==> display_strings_plain(top_entries(ui_state->0)),
        forall|i: int|
            0 <= i < files.len() ==> dict_file(#[trigger] files[i]) && one_glyph_name(
                dict_value(files[i]),
            ),
        file_names == files.map_values(
            |f: Seq<char>| spec_glyph_filename(spec_glyph_name(f)->Ok_0),
        ),
        (spec_order_names(order)->Ok_0).to_multiset() == files.map_values(
            |f: Seq<char>| spec_glyph_name(f)->Ok_0,
        ).to_multiset(),
    ensures
        ({
            let u = spec_unpack(fontinfo, order, files, ui_state)->Ok_0;
            &&& spec_pack(u) is Ok
            &&& (spec_pack(u)->Ok_0).glyphs.map_values(|g: (Seq<char>, Seq<char>)| g.0).to_multiset()
                == file_names.to_multiset()
        }),
{
    law_unpack_then_pack(fontinfo, order, files, ui_state);
    let ns = spec_order_names(order)->Ok_0;
    let names = files.map_values(|f: Seq<char>| spec_glyph_name(f)->Ok_0);
    lemma_map_multiset(ns, names, |n: Seq<char>| spec_glyph_filename(n));
    assert(names.map_values(|n: Seq<char>| spec_glyph_filename(n)) =~= file_names);
}

} // verus!

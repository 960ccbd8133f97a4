//! Strings: their characters, the byte offsets of those characters, and building strings.
use std::borrow::Cow;
use vstd::prelude::*;
use vstd::string::StringSliceAdditionalSpecFns;
use vstd::utf8::*;

verus! {

broadcast use vstd::string::group_string_axioms;

/// The UTF-8 encoding of a concatenation is the concatenation of the encodings.
pub proof fn lemma_encode_concat(a: Seq<char>, b: Seq<char>)
    ensures
        encode_utf8(a + b) =~= encode_utf8(a) + encode_utf8(b),
    decreases a.len(),
{
    if a.len() == 0 {
        assert(a + b =~= b);
    } else {
        lemma_encode_concat(a.drop_first(), b);
        assert((a + b).drop_first() =~= a.drop_first() + b);
        assert((a + b)[0] == a[0]);
    }
}

/// The end of the encoding of a prefix is a character boundary of the whole encoding.
pub proof fn lemma_prefix_boundary(a: Seq<char>, b: Seq<char>)
    ensures
        is_char_boundary(encode_utf8(a + b), encode_utf8(a).len() as int),
    decreases a.len(),
{
    broadcast use encode_utf8_valid_utf8;

    if a.len() == 0 {
    } else {
        let ab = a + b;
        lemma_prefix_boundary(a.drop_first(), b);
        assert(ab.drop_first() =~= a.drop_first() + b);
        encode_utf8_first_scalar(ab);
        let bytes = encode_utf8(ab);
        assert(pop_first_scalar(bytes) =~= encode_utf8(ab.drop_first()));
        lemma_encode_concat(a, b);
    }
}

/// Two character sequences with the same encoding are equal.
pub proof fn lemma_encode_injective(a: Seq<char>, b: Seq<char>)
    requires
        encode_utf8(a) == encode_utf8(b),
    ensures
        a == b,
{
    encode_utf8_decode_utf8(a);
    encode_utf8_decode_utf8(b);
}

/// `String::push`: the string afterwards is the string before with `c` appended.
#[verifier::external_body]
pub(crate) fn push_char(s: &mut String, c: char)
    ensures
        final(s)@ == old(s)@.push(c),
{
    s.push(c);
}

/// The encoding of a one-character sequence is the encoding of that character.
pub proof fn lemma_encode_single(c: char)
    ensures
        encode_utf8(seq![c]) == encode_scalar(c as u32),
{
    let s = seq![c];
    assert(s.drop_first() =~= Seq::<char>::empty());
    assert(encode_utf8(s.drop_first()) == Seq::<u8>::empty());
    assert(encode_utf8(s) == encode_scalar(s[0] as u32) + encode_utf8(s.drop_first()));
    assert(encode_utf8(s) =~= encode_scalar(c as u32));
}

/// Number of bytes in the UTF-8 encoding of one character.
pub fn utf8_width(c: char) -> (n: usize)
    ensures
        n == encode_scalar(c as u32).len(),
        1 <= n <= 4,
{
    let v = c as u32;
    proof {
        char_is_scalar(c);
    }
    if v <= 0x7F {
        1
    } else if v <= 0x7FF {
        2
    } else if v <= 0xFFFF {
        3
    } else {
        4
    }
}

/// The byte offset at which character `i` of `s` starts in its UTF-8 encoding.
pub open spec fn byte_offset(s: Seq<char>, i: int) -> int {
    encode_utf8(s.take(i)).len() as int
}

/// The characters of a string slice, in order, with the byte offset of each
/// character position (one more offset than characters, the last being the length).
pub fn chars_and_offsets(s: &str) -> (r: (Vec<char>, Vec<usize>))
    ensures
        r.0@ == s@,
        r.1@.len() == s@.len() + 1,
        forall|i: int| 0 <= i <= s@.len() ==> #[trigger] r.1@[i] == byte_offset(s@, i),
{
    let bytes = s.as_bytes();
    let total = bytes.len();
    let mut out: Vec<char> = Vec::new();
    let mut offs: Vec<usize> = Vec::new();
    let mut pos: usize = 0;
    offs.push(0);
    proof {
        assert(s@.take(0) =~= Seq::<char>::empty());
    }
    for c in it: s.chars()
        invariant
            it.seq() == s@,
            out@ == s@.take(it.index() as int),
            offs@.len() == it.index() + 1,
            forall|i: int| 0 <= i <= it.index() ==> #[trigger] offs@[i] == byte_offset(s@, i),
            pos == byte_offset(s@, it.index() as int),
            total == encode_utf8(s@).len(),
    {
        let ghost k = it.index() as int;
        let w = utf8_width(c);
        proof {
            let pre = s@.take(k);
            assert(s@.take(k + 1) =~= pre + seq![c]);
            lemma_encode_concat(pre, seq![c]);
            assert(seq![c].drop_first() =~= Seq::<char>::empty());
            lemma_encode_single(c);
            lemma_encode_concat(s@.take(k + 1), s@.skip(k + 1));
            assert(s@.take(k + 1) + s@.skip(k + 1) =~= s@);
        }
        pos = pos + w;
        out.push(c);
        offs.push(pos);
    }
    (out, offs)
}

/// The part of `s` between character positions `i` and `j`, given the byte offsets
/// that `chars_and_offsets` computed for `s`.
pub fn substring<'a>(s: &'a str, offs: &Vec<usize>, i: usize, j: usize) -> (r: &'a str)
    requires
        i <= j <= s@.len(),
        offs@.len() == s@.len() + 1,
        forall|k: int| 0 <= k <= s@.len() ==> #[trigger] offs@[k] == byte_offset(s@, k),
    ensures
        r@ == s@.subrange(i as int, j as int),
{
    let ghost t = s@;
    let bi = offs[i];
    let bj = offs[j];
    proof {
        assert(offs@[i as int] == byte_offset(t, i as int));
        assert(offs@[j as int] == byte_offset(t, j as int));
        assert(t.take(i as int) + t.skip(i as int) =~= t);
        lemma_prefix_boundary(t.take(i as int), t.skip(i as int));
        lemma_encode_concat(t.take(i as int), t.skip(i as int));
        let mid = t.subrange(i as int, j as int);
        assert(t.take(j as int) =~= t.take(i as int) + mid);
        lemma_encode_concat(t.take(i as int), mid);
        assert(mid + t.skip(j as int) =~= t.skip(i as int));
        lemma_prefix_boundary(mid, t.skip(j as int));
        lemma_encode_concat(mid, t.skip(j as int));
    }
    let (_, rest) = s.split_at(bi);
    proof {
        assert(rest.spec_bytes() =~= encode_utf8(t.skip(i as int)));
        lemma_encode_injective(rest@, t.skip(i as int));
    }
    let (r, _) = rest.split_at(bj - bi);
    proof {
        let mid = t.subrange(i as int, j as int);
        assert(r.spec_bytes() =~= encode_utf8(mid));
        lemma_encode_injective(r@, mid);
    }
    r
}

/// The characters of a string slice, in order.
pub fn chars_of(s: &str) -> (r: Vec<char>)
    ensures
        r@ == s@,
{
    let mut out: Vec<char> = Vec::new();
    for c in it: s.chars()
        invariant
            out@ == it.seq().take(it.index() as int),
    {
        out.push(c);
    }
    out
}

/// Whether two string slices hold the same characters.
pub fn str_eq(a: &str, b: &str) -> (r: bool)
    ensures
        r == (a@ == b@),
{
    let x = a.as_bytes();
    let y = b.as_bytes();
    if x.len() != y.len() {
        return false;
    }
    let mut i: usize = 0;
    while i < x.len()
        invariant
            x@.len() == y@.len(),
            0 <= i <= x@.len(),
            x@ == a.spec_bytes(),
            y@ == b.spec_bytes(),
            forall|k: int| 0 <= k < i ==> x@[k] == y@[k],
        decreases x@.len() - i,
    {
        if x[i] != y[i] {
            return false;
        }
        i = i + 1;
    }
    proof {
        assert(x@ =~= y@);
        lemma_encode_injective(a@, b@);
    }
    true
}

/// The text of a possibly borrowed string.
pub fn cow_str<'b, 'a>(c: &'b Cow<'a, str>) -> (r: &'b str)
    ensures
        r@ == c@,
{
    match c {
        Cow::Borrowed(b) => b,
        Cow::Owned(o) => o.as_str(),
    }
}

/// Appends a string slice.
pub fn push_str(out: &mut String, t: &str)
    ensures
        final(out)@ == old(out)@ + t@,
{
    out.append(t);
}

} // verus!

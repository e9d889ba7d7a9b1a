//! Byte-offset slicing of UTF-8 text, proved against the character view.
use vstd::prelude::*;
use vstd::utf8::*;
use vstd::string::*;

verus! {

/// The characters encoded between byte offsets `a` and `b` of the UTF-8 encoding of `s`.
pub open spec fn chars_between(s: Seq<char>, a: int, b: int) -> Seq<char> {
    decode_utf8(encode_utf8(s).subrange(a, b))
}

/// Byte offset `i` starts a character of `s` (or is its end).
pub open spec fn at_boundary(s: Seq<char>, i: int) -> bool {
    is_char_boundary(encode_utf8(s), i)
}

pub proof fn lemma_decode_of_view(s: Seq<char>)
    ensures
        valid_utf8(encode_utf8(s)),
        decode_utf8(encode_utf8(s)) == s,
{
    encode_utf8_valid_utf8(s);
    encode_utf8_decode_utf8(s);
}

/// Splitting the encoding at a boundary splits the characters.
pub proof fn lemma_split_chars(s: Seq<char>, mid: int)
    requires
        0 <= mid <= encode_utf8(s).len(),
        at_boundary(s, mid),
    ensures
        s == chars_between(s, 0, mid) + chars_between(s, mid, encode_utf8(s).len() as int),
        valid_utf8(encode_utf8(s).subrange(0, mid)),
        valid_utf8(encode_utf8(s).subrange(mid, encode_utf8(s).len() as int)),
{
    let b = encode_utf8(s);
    lemma_decode_of_view(s);
    decode_utf8_split(b, mid);
    valid_utf8_split(b, mid);
}

/// A boundary of a suffix is a boundary of the whole, shifted.
pub proof fn lemma_boundary_suffix(b: Seq<u8>, a: int, i: int)
    requires
        valid_utf8(b),
        is_char_boundary(b, a),
        0 <= a <= i <= b.len(),
    ensures
        valid_utf8(b.subrange(a, b.len() as int)),
        is_char_boundary(b.subrange(a, b.len() as int), i - a) <==> is_char_boundary(b, i),
{
    let t = b.subrange(a, b.len() as int);
    valid_utf8_split(b, a);
    is_char_boundary_start_end_of_seq(b);
    is_char_boundary_start_end_of_seq(t);
    if a < i < b.len() {
        is_char_boundary_iff_not_is_continuation_byte(b, i);
        is_char_boundary_iff_not_is_continuation_byte(t, i - a);
    }
}

/// A boundary of a prefix is a boundary of the whole.
pub proof fn lemma_boundary_prefix(b: Seq<u8>, e: int, i: int)
    requires
        valid_utf8(b),
        is_char_boundary(b, e),
        0 <= i <= e <= b.len(),
    ensures
        valid_utf8(b.subrange(0, e)),
        is_char_boundary(b.subrange(0, e), i) <==> is_char_boundary(b, i),
{
    let t = b.subrange(0, e);
    valid_utf8_split(b, e);
    is_char_boundary_start_end_of_seq(b);
    is_char_boundary_start_end_of_seq(t);
    if 0 < i < e {
        is_char_boundary_iff_not_is_continuation_byte(b, i);
        is_char_boundary_iff_not_is_continuation_byte(t, i);
    }
}

/// An ASCII byte is a boundary, and so is the offset just past it.
pub proof fn lemma_ascii_boundary(b: Seq<u8>, i: int)
    requires
        valid_utf8(b),
        0 <= i < b.len(),
        b[i] < 128,
    ensures
        is_char_boundary(b, i),
        is_char_boundary(b, i + 1),
{
    is_char_boundary_iff_not_is_continuation_byte(b, i);
    is_char_boundary_start_end_of_seq(b);
    let t = b.subrange(i, b.len() as int);
    lemma_boundary_suffix(b, i, i + 1);
    assert(t[0] == b[i]);
    assert(length_of_first_scalar(t) == 1);
    reveal_with_fuel(is_char_boundary, 2);
    assert(is_char_boundary(t, 1));
}

/// Adjacent pieces of text between boundaries join up.
pub proof fn lemma_chars_between_concat(s: Seq<char>, a: int, m: int, c: int)
    requires
        0 <= a <= m <= c <= encode_utf8(s).len(),
        at_boundary(s, a),
        at_boundary(s, m),
        at_boundary(s, c),
    ensures
        chars_between(s, a, m) + chars_between(s, m, c) == chars_between(s, a, c),
{
    let b = encode_utf8(s);
    encode_utf8_valid_utf8(s);
    let p = b.subrange(0, c);
    lemma_boundary_prefix(b, c, a);
    lemma_boundary_prefix(b, c, m);
    let t = p.subrange(a, c);
    lemma_boundary_suffix(p, a, m);
    decode_utf8_split(t, m - a);
    assert(t =~= b.subrange(a, c));
    assert(t.subrange(0, m - a) =~= b.subrange(a, m));
    assert(t.subrange(m - a, t.len() as int) =~= b.subrange(m, c));
}

/// The text between the two ends is all of it.
pub proof fn lemma_chars_between_all(s: Seq<char>)
    ensures
        chars_between(s, 0, encode_utf8(s).len() as int) == s,
        at_boundary(s, 0),
        at_boundary(s, encode_utf8(s).len() as int),
{
    lemma_decode_of_view(s);
    is_char_boundary_start_end_of_seq(encode_utf8(s));
    assert(encode_utf8(s).subrange(0, encode_utf8(s).len() as int) =~= encode_utf8(s));
}

/// Splits `s` at byte offset `mid`.
pub fn split_str(s: &str, mid: usize) -> (r: (&str, &str))
    requires
        mid <= s.spec_bytes().len(),
        at_boundary(s@, mid as int),
    ensures
        s@ == r.0@ + r.1@,
        r.0@ == chars_between(s@, 0, mid as int),
        r.1@ == chars_between(s@, mid as int, s.spec_bytes().len() as int),
        r.0.spec_bytes() == s.spec_bytes().subrange(0, mid as int),
        r.1.spec_bytes() == s.spec_bytes().subrange(mid as int, s.spec_bytes().len() as int),
{
    let r = s.split_at(mid);
    proof {
        lemma_split_chars(s@, mid as int);
        lemma_decode_of_view(r.0@);
        lemma_decode_of_view(r.1@);
    }
    r
}

/// The text of `s` between byte offsets `a` and `b`.
pub fn slice_str(s: &str, a: usize, b: usize) -> (r: &str)
    requires
        a <= b <= s.spec_bytes().len(),
        at_boundary(s@, a as int),
        at_boundary(s@, b as int),
    ensures
        r@ == chars_between(s@, a as int, b as int),
        r.spec_bytes() == s.spec_bytes().subrange(a as int, b as int),
{
    let ghost bs = s.spec_bytes();
    proof {
        lemma_decode_of_view(s@);
        lemma_boundary_prefix(bs, b as int, a as int);
    }
    let (left, _) = split_str(s, b);
    proof {
        assert(left.spec_bytes() == encode_utf8(left@));
        assert(at_boundary(left@, a as int));
    }
    let (_, mid) = split_str(left, a);
    proof {
        assert(mid.spec_bytes() =~= bs.subrange(a as int, b as int));
        lemma_decode_of_view(mid@);
    }
    mid
}

} // verus!

//! Byte-range slicing of text, as `&s[a..b]` does it on the UTF-8 encoding.
use vstd::prelude::*;
use vstd::string::StringSliceAdditionalSpecFns;
use vstd::utf8::*;

verus! {

broadcast use vstd::utf8::group_utf8_lib;

/// The UTF-8 encoding of a text.
pub open spec fn bytes_of(s: Seq<char>) -> Seq<u8> {
    encode_utf8(s)
}

/// `&s[a..b]` is defined: the byte range lies within the encoding and both
/// ends fall on character boundaries.
pub open spec fn can_slice(s: Seq<char>, a: int, b: int) -> bool {
    let bs = bytes_of(s);
    &&& 0 <= a <= b <= bs.len()
    &&& is_char_boundary(bs, a)
    &&& is_char_boundary(bs, b)
}

/// The characters of the byte range `[a, b)` of the encoding of `s`.
pub open spec fn text_slice(s: Seq<char>, a: int, b: int) -> Seq<char> {
    decode_utf8(bytes_of(s).subrange(a, b))
}

/// A text has at least as many bytes as characters.
pub proof fn lemma_bytes_len(s: Seq<char>)
    ensures
        s.len() <= bytes_of(s).len(),
    decreases s.len(),
{
    if s.len() > 0 {
        lemma_bytes_len(s.drop_first());
    }
}

/// A character boundary before a cut is still one in the part before the cut.
proof fn lemma_boundary_in_prefix(bs: Seq<u8>, a: int, b: int)
    requires
        valid_utf8(bs),
        0 <= a <= b <= bs.len(),
        is_char_boundary(bs, a),
        is_char_boundary(bs, b),
    ensures
        is_char_boundary(bs.subrange(0, b), a),
{
    let front = bs.subrange(0, b);
    valid_utf8_split(bs, b);
    if a == b {
        is_char_boundary_start_end_of_seq(front);
    } else if a > 0 {
        is_char_boundary_iff_not_is_continuation_byte(bs, a);
        is_char_boundary_iff_not_is_continuation_byte(front, a);
    }
}

/// A part of a text with at least as many characters as the text is the
/// whole text. (So a parser that would parse such a part of its input again
/// would repeat itself forever.)
pub proof fn law_long_part_is_whole(s: Seq<char>, a: int, b: int)
    requires
        can_slice(s, a, b),
        text_slice(s, a, b).len() >= s.len(),
    ensures
        a == 0,
        b == bytes_of(s).len(),
        text_slice(s, a, b) == s,
{
    let bs = bytes_of(s);
    let n = bs.len() as int;
    let p = bs.subrange(0, b);
    valid_utf8_split(bs, b);
    decode_utf8_split(bs, b);
    lemma_boundary_in_prefix(bs, a, b);
    valid_utf8_split(p, a);
    decode_utf8_split(p, a);
    assert(p.subrange(0, a) =~= bs.subrange(0, a));
    assert(p.subrange(a, p.len() as int) =~= bs.subrange(a, b));
    let front = bs.subrange(0, a);
    let back = bs.subrange(b, n);
    assert(s.len() == decode_utf8(front).len() + text_slice(s, a, b).len() + decode_utf8(
        back,
    ).len());
    decode_utf8_encode_utf8(front);
    decode_utf8_encode_utf8(back);
    assert(decode_utf8(front) =~= Seq::<char>::empty());
    assert(decode_utf8(back) =~= Seq::<char>::empty());
    assert(front.len() == 0);
    assert(back.len() == 0);
    assert(bs.subrange(a, b) =~= bs);
}

/// In an ASCII text bytes and characters coincide: any range within it can
/// be cut out, and the cut is the range of characters.
pub proof fn law_ascii_slice(s: Seq<char>, a: int, b: int)
    requires
        is_ascii_chars(s),
        0 <= a <= b <= s.len(),
    ensures
        can_slice(s, a, b),
        text_slice(s, a, b) == s.subrange(a, b),
{
    let bs = bytes_of(s);
    let sub = s.subrange(a, b);
    is_ascii_chars_encode_utf8(s);
    assert(is_ascii_chars(sub));
    is_ascii_chars_encode_utf8(sub);
    assert(encode_utf8(sub) =~= bs.subrange(a, b));
    is_ascii_chars_nat_bound(s);
    if 0 < a < bs.len() {
        is_char_boundary_iff_not_is_continuation_byte(bs, a);
        assert(s[a] as u8 == bs[a]);
    }
    if 0 < b < bs.len() {
        is_char_boundary_iff_not_is_continuation_byte(bs, b);
        assert(s[b] as u8 == bs[b]);
    }
    is_char_boundary_start_end_of_seq(bs);
}

/// `String::from(&s[a..b])`.
pub fn slice_text(s: &str, a: usize, b: usize) -> (r: String)
    requires
        can_slice(s@, a as int, b as int),
    ensures
        r@ == text_slice(s@, a as int, b as int),
{
    proof {
        lemma_boundary_in_prefix(bytes_of(s@), a as int, b as int);
    }
    let (front, _) = s.split_at(b);
    let (_, mid) = front.split_at(a);
    assert(mid.spec_bytes() =~= bytes_of(s@).subrange(a as int, b as int));
    mid.to_owned()
}

/// `&s[a..b]` when it is defined, `None` where it would panic.
pub fn try_slice_text(s: &str, a: usize, b: usize) -> (r: Option<String>)
    ensures
        r is Some <==> can_slice(s@, a as int, b as int),
        r matches Some(t) ==> t@ == text_slice(s@, a as int, b as int),
{
    let n = s.as_bytes().len();
    if a <= b && b <= n && s.is_char_boundary(a) && s.is_char_boundary(b) {
        Some(slice_text(s, a, b))
    } else {
        None
    }
}

} // verus!

//! Texts as UTF-8: searching for bytes and cutting strings at byte positions.

use vstd::prelude::*;
use vstd::utf8::{decode_utf8, encode_utf8, is_char_boundary, valid_utf8};

use crate::text::{find_from, occurs_at};

verus! {

/// The encoding of a text is the encodings of its parts.
pub proof fn lemma_encode_concat(a: Seq<char>, b: Seq<char>)
    ensures
        encode_utf8(a + b) == encode_utf8(a) + encode_utf8(b),
    decreases a.len(),
{
    if a.len() == 0 {
        assert(a + b == b);
        assert(encode_utf8(a) + encode_utf8(b) == encode_utf8(b));
    } else {
        assert((a + b).drop_first() == a.drop_first() + b);
        lemma_encode_concat(a.drop_first(), b);
    }
}

/// A string is what its bytes decode to.
pub proof fn lemma_decode_of(s: Seq<char>)
    ensures
        valid_utf8(encode_utf8(s)),
        decode_utf8(encode_utf8(s)) == s,
{
    vstd::utf8::encode_utf8_valid_utf8(s);
    vstd::utf8::encode_utf8_decode_utf8(s);
}

/// A string can be cut before and after an ASCII byte.
pub proof fn lemma_boundary_at_ascii(b: Seq<u8>, i: int)
    requires
        valid_utf8(b),
        0 <= i < b.len(),
        b[i] < 0x80,
    ensures
        is_char_boundary(b, i),
        is_char_boundary(b, i + 1),
{
    vstd::utf8::is_char_boundary_iff_not_is_continuation_byte(b, i);
    assert(is_char_boundary(b, i));
    vstd::utf8::valid_utf8_split(b, i);
    let rest = b.subrange(i, b.len() as int);
    assert(valid_utf8(rest));
    assert(rest[0] == b[i]);
    let after = vstd::utf8::pop_first_scalar(rest);
    assert(after == b.subrange(i + 1, b.len() as int));
    assert(valid_utf8(after));
    if i + 1 < b.len() {
        assert(after[0] == b[i + 1]);
        vstd::utf8::is_char_boundary_iff_not_is_continuation_byte(b, i + 1);
    } else {
        vstd::utf8::is_char_boundary_start_end_of_seq(b);
    }
}

/// Where a string can be cut, its rest can be cut too.
pub proof fn lemma_boundary_rest(b: Seq<u8>, i: int, j: int)
    requires
        valid_utf8(b),
        is_char_boundary(b, i),
        is_char_boundary(b, j),
        0 <= i <= j <= b.len(),
    ensures
        valid_utf8(b.subrange(i, b.len() as int)),
        is_char_boundary(b.subrange(i, b.len() as int), j - i),
{
    vstd::utf8::valid_utf8_split(b, i);
    let rest = b.subrange(i, b.len() as int);
    if j < b.len() {
        vstd::utf8::is_char_boundary_iff_not_is_continuation_byte(b, j);
        assert(rest[j - i] == b[j]);
        vstd::utf8::is_char_boundary_iff_not_is_continuation_byte(rest, j - i);
    } else {
        vstd::utf8::is_char_boundary_start_end_of_seq(rest);
    }
}

/// Whether the bytes of a text can be cut out from `i` to `j`.
pub open spec fn can_cut(b: Seq<u8>, i: int, j: int) -> bool {
    0 <= i <= j <= b.len() && is_char_boundary(b, i) && is_char_boundary(b, j)
}

/// The text in the bytes from `i` to `j`.
pub open spec fn cut(b: Seq<u8>, i: int, j: int) -> Seq<char> {
    decode_utf8(b.subrange(i, j))
}

/// The part of a string from byte `i` to byte `j`.
pub fn slice_str(s: &str, i: usize, j: usize) -> (r: &str)
    requires
        can_cut(encode_utf8(s@), i as int, j as int),
    ensures
        r@ == cut(encode_utf8(s@), i as int, j as int),
        encode_utf8(r@) == encode_utf8(s@).subrange(i as int, j as int),
{
    let ghost b = encode_utf8(s@);
    proof {
        lemma_decode_of(s@);
        lemma_boundary_rest(b, i as int, j as int);
    }
    let (_, rest) = s.split_at(i);
    let (r, _) = rest.split_at(j - i);
    proof {
        assert(encode_utf8(r@) == b.subrange(i as int, j as int));
        lemma_decode_of(r@);
    }
    r
}

/// The length of a string in bytes.
pub fn byte_len(s: &str) -> (r: usize)
    ensures
        r == encode_utf8(s@).len(),
{
    s.as_bytes().len()
}

/// Whether `needle` stands in `hay` at position `i`.
pub fn bytes_match_at(hay: &[u8], needle: &[u8], i: usize) -> (r: bool)
    ensures
        r == occurs_at(hay@, needle@, i as int),
{
    if i > hay.len() || needle.len() > hay.len() - i {
        return false;
    }
    let n: usize = needle.len();
    let mut j: usize = 0;
    while j < n
        invariant
            0 <= j <= n,
            n == needle@.len(),
            i + n <= hay.len(),
            hay.len() == hay@.len(),
            forall|k: int| 0 <= k < j ==> hay@[i + k] == needle@[k],
        decreases n - j,
    {
        if hay[i + j] != needle[j] {
            assert(hay@.subrange(i as int, i + n)[j as int] != needle@[j as int]);
            return false;
        }
        j += 1;
    }
    assert(hay@.subrange(i as int, i + n) == needle@);
    true
}

/// The first position, `from` or later, at which `needle` stands in `hay`.
pub fn byte_index_from(hay: &[u8], needle: &[u8], from: usize) -> (r: Option<usize>)
    ensures
        match r {
            Some(i) => find_from(hay@, needle@, from as int) == Some(i as int) && from <= i && i
                + needle.len() <= hay.len(),
            None => find_from(hay@, needle@, from as int) is None,
        },
{
    let n: usize = hay.len();
    if needle.len() > n {
        return None;
    }
    let last: usize = n - needle.len();
    let mut i: usize = from;
    while i <= last
        invariant
            from <= i,
            n == hay@.len(),
            n == hay.len(),
            last + needle@.len() == n,
            needle.len() == needle@.len(),
            find_from(hay@, needle@, from as int) == find_from(hay@, needle@, i as int),
        decreases last + 1 - i,
    {
        if bytes_match_at(hay, needle, i) {
            return Some(i);
        }
        if i == last {
            assert(find_from(hay@, needle@, i + 1) is None);
            return None;
        }
        i += 1;
    }
    None
}

/// The first byte position, `from` or later, at which a string stands in
/// another.
pub fn str_index_from(hay: &str, needle: &str, from: usize) -> (r: Option<usize>)
    ensures
        match r {
            Some(i) => find_from(encode_utf8(hay@), encode_utf8(needle@), from as int) == Some(
                i as int,
            ) && from <= i && i + encode_utf8(needle@).len() <= encode_utf8(hay@).len()
                && encode_utf8(hay@).len() <= usize::MAX,
            None => find_from(encode_utf8(hay@), encode_utf8(needle@), from as int) is None,
        },
{
    byte_index_from(hay.as_bytes(), needle.as_bytes(), from)
}

} // verus!

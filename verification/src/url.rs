//! URLs: percent encoding, query parameters, and the kinds of pages they lead to.

use vstd::prelude::*;
use vstd::utf8::{decode_utf8, encode_utf8, valid_utf8};

use crate::num::{hex_char, hex_digit, parse_unsigned, parse_unsigned_of};
use crate::text::{
    chars_of, copy_range, find, has_prefix, index_from, lemma_find_from, lemma_first_piece,
    lowercase, occurs, occurs_at, replace, replace_of, split, split_of, starts_with, string_of,
};

verus! {

// ---------------------------------------------------------------------------
// Percent encoding
// ---------------------------------------------------------------------------

/// Whether a byte stands for itself in an encoded query value: ASCII letters,
/// digits, and `-`, `_`, `.`, `~`.
pub open spec fn unreserved(b: u8) -> bool {
    ||| 0x41 <= b <= 0x5a
    ||| 0x61 <= b <= 0x7a
    ||| 0x30 <= b <= 0x39
    ||| b == 0x2d
    ||| b == 0x5f
    ||| b == 0x2e
    ||| b == 0x7e
}

/// What a byte is encoded as: itself, `+` for a space, or a percent sign and
/// two hexadecimal digits.
pub open spec fn encode_byte(b: u8) -> Seq<char> {
    if unreserved(b) {
        seq![b as char]
    } else if b == 0x20 {
        seq!['+']
    } else {
        seq!['%', hex_char((b / 16) as int), hex_char((b % 16) as int)]
    }
}

/// The encoding of a run of bytes.
pub open spec fn encode_bytes(bytes: Seq<u8>) -> Seq<char>
    decreases bytes.len(),
{
    if bytes.len() == 0 {
        seq![]
    } else {
        encode_byte(bytes[0]) + encode_bytes(bytes.skip(1))
    }
}

/// The encoding of a text as a query value.
pub open spec fn url_encoded(s: Seq<char>) -> Seq<char> {
    encode_bytes(encode_utf8(s))
}

/// Encodes a text as a query value.
pub fn url_encode(s: &str) -> (r: String)
    ensures
        r@ == url_encoded(s@),
{
    let bytes = s.as_bytes();
    let n: usize = bytes.len();
    let mut out = String::new();
    let mut i: usize = 0;
    assert(bytes@.skip(0) == bytes@);
    assert(out@ + encode_bytes(bytes@) == encode_bytes(bytes@));
    while i < n
        invariant
            0 <= i <= n,
            n == bytes@.len(),
            out@ + encode_bytes(bytes@.skip(i as int)) == encode_bytes(bytes@),
        decreases n - i,
    {
        let ghost out0 = out@;
        let ghost rest = bytes@.skip(i as int);
        let b: u8 = bytes[i];
        if (0x41 <= b && b <= 0x5a) || (0x61 <= b && b <= 0x7a) || (0x30 <= b && b <= 0x39) || b
            == 0x2d || b == 0x5f || b == 0x2e || b == 0x7e {
            out.push(b as char);
        } else if b == 0x20 {
            out.push('+');
        } else {
            out.push('%');
            out.push(hex_digit(b / 16));
            out.push(hex_digit(b % 16));
        }
        assert(out@ == out0 + encode_byte(b));
        assert(rest.skip(1) == bytes@.skip(i + 1));
        assert(out0 + (encode_byte(b) + encode_bytes(rest.skip(1))) == out@ + encode_bytes(
            rest.skip(1),
        ));
        i += 1;
    }
    assert(encode_bytes(bytes@.skip(n as int)) == Seq::<char>::empty());
    assert(out@ + Seq::<char>::empty() == out@);
    out
}

/// The value of two bytes read as a hexadecimal number.
pub open spec fn hex_pair(a: u8, b: u8) -> Option<int> {
    parse_unsigned(seq![a as char, b as char], 16, 255)
}

/// The bytes that a percent-encoded run of bytes stands for. A percent sign
/// without a number behind it stands for itself.
pub open spec fn percent_bytes(b: Seq<u8>) -> Seq<u8>
    decreases b.len(),
{
    if b.len() == 0 {
        b
    } else if b[0] == 0x25 && b.len() > 2 && hex_pair(b[1], b[2]) is Some {
        seq![hex_pair(b[1], b[2])->0 as u8] + percent_bytes(b.skip(3))
    } else {
        seq![b[0]] + percent_bytes(b.skip(1))
    }
}

/// The text that `String::from_utf8_lossy` makes of bytes that are not valid
/// UTF-8.
pub uninterp spec fn lossy_text(b: Seq<u8>) -> Seq<char>;

/// The text of a run of bytes, valid UTF-8 or not.
pub open spec fn text_of_bytes(b: Seq<u8>) -> Seq<char> {
    if valid_utf8(b) {
        decode_utf8(b)
    } else {
        lossy_text(b)
    }
}

/// `String::from_utf8_lossy`: valid UTF-8 is decoded. What other bytes become,
/// with replacement characters in them, depends on the bytes alone and is
/// called [`lossy_text`].
#[verifier::external_body]
fn from_utf8_lossy(b: &[u8]) -> (r: String)
    ensures
        r@ == (if valid_utf8(b@) {
            decode_utf8(b@)
        } else {
            lossy_text(b@)
        }),
{
    String::from_utf8_lossy(b).into_owned()
}

/// The text that a percent-encoded text stands for.
pub open spec fn percent_decoded(s: Seq<char>) -> Seq<char> {
    text_of_bytes(percent_bytes(encode_utf8(s)))
}

fn hex_value(a: u8, b: u8) -> (r: Option<u8>)
    ensures
        match r {
            Some(v) => hex_pair(a, b) == Some(v as int),
            None => hex_pair(a, b) is None,
        },
{
    let mut pair: Vec<char> = Vec::new();
    pair.push(a as char);
    pair.push(b as char);
    assert(pair@ == seq![a as char, b as char]);
    match parse_unsigned_of(pair.as_slice(), 16, 255) {
        Some(v) => Some(v as u8),
        None => None,
    }
}

/// Decodes a percent-encoded text.
pub fn percent_decode(s: &str) -> (r: String)
    ensures
        r@ == percent_decoded(s@),
{
    let bytes = s.as_bytes();
    let n: usize = bytes.len();
    let mut out: Vec<u8> = Vec::new();
    let mut i: usize = 0;
    assert(bytes@.skip(0) == bytes@);
    assert(out@ + percent_bytes(bytes@) == percent_bytes(bytes@));
    while i < n
        invariant
            0 <= i <= n,
            n == bytes@.len(),
            n == bytes.len(),
            out@ + percent_bytes(bytes@.skip(i as int)) == percent_bytes(bytes@),
        decreases n - i,
    {
        let ghost out0 = out@;
        let ghost rest = bytes@.skip(i as int);
        assert(rest.skip(1) == bytes@.skip(i + 1));
        let mut decoded: Option<u8> = None;
        if bytes[i] == 0x25 && n - i > 2 {
            decoded = hex_value(bytes[i + 1], bytes[i + 2]);
        }
        match decoded {
            Some(v) => {
                assert(rest.skip(3) == bytes@.skip(i + 3));
                out.push(v);
                i += 3;
                assert(out0 + (seq![v] + percent_bytes(rest.skip(3))) == out@ + percent_bytes(
                    rest.skip(3),
                ));
            },
            None => {
                out.push(bytes[i]);
                i += 1;
                assert(out0 + (seq![rest[0]] + percent_bytes(rest.skip(1))) == out@
                    + percent_bytes(rest.skip(1)));
            },
        }
    }
    assert(percent_bytes(bytes@.skip(n as int)) == Seq::<u8>::empty());
    assert(out@ + Seq::<u8>::empty() == out@);
    from_utf8_lossy(out.as_slice())
}

// ---------------------------------------------------------------------------
// Query parameters
// ---------------------------------------------------------------------------

/// A character with ASCII letters in lower case.
pub open spec fn ascii_lower(c: char) -> char {
    if 'A' <= c <= 'Z' {
        (c as int + 32) as char
    } else {
        c
    }
}

/// Whether two texts are the same but for the case of ASCII letters.
pub open spec fn same_ignoring_case(a: Seq<char>, b: Seq<char>) -> bool {
    a.len() == b.len() && forall|i: int|
        0 <= i < a.len() ==> ascii_lower(#[trigger] a[i]) == ascii_lower(b[i])
}

fn lower_ascii(c: char) -> (r: char)
    ensures
        r == ascii_lower(c),
{
    if 'A' <= c && c <= 'Z' {
        ((c as u8) + 32) as char
    } else {
        c
    }
}

/// Whether two texts are the same but for the case of ASCII letters.
pub fn equal_ignoring_case(a: &[char], b: &str) -> (r: bool)
    ensures
        r == same_ignoring_case(a@, b@),
{
    let c = chars_of(b);
    if a.len() != c.len() {
        return false;
    }
    let n: usize = a.len();
    let mut i: usize = 0;
    while i < n
        invariant
            0 <= i <= n,
            n == a@.len(),
            n == c@.len(),
            c@ == b@,
            forall|j: int| 0 <= j < i ==> ascii_lower(#[trigger] a@[j]) == ascii_lower(c@[j]),
        decreases n - i,
    {
        if lower_ascii(a[i]) != lower_ascii(c[i]) {
            return false;
        }
        i += 1;
    }
    true
}

/// Whether a text is the URL of a web page.
pub open spec fn is_http(s: Seq<char>) -> bool {
    starts_with(s, "http://"@) || starts_with(s, "https://"@)
}

/// Whether a text is the URL of a web page.
pub fn has_http_scheme(s: &str) -> (r: bool)
    ensures
        r == is_http(s@),
{
    let c = chars_of(s);
    has_prefix(c.as_slice(), "http://") || has_prefix(c.as_slice(), "https://")
}

/// Whether one of the keys is the wanted one.
pub open spec fn is_wanted(key: Seq<char>, keys: Seq<Seq<char>>) -> bool {
    exists|i: int| 0 <= i < keys.len() && same_ignoring_case(key, #[trigger] keys[i])
}

/// The value that a query value stands for.
pub open spec fn query_value(v: Seq<char>) -> Seq<char> {
    percent_decoded(replace(v, "+"@, " "@))
}

/// The first web page among the values of the wanted keys. The search ends,
/// without a result, at a parameter without a value.
pub open spec fn page_among(parts: Seq<Seq<char>>, keys: Seq<Seq<char>>) -> Option<Seq<char>>
    decreases parts.len(),
{
    if parts.len() == 0 {
        None
    } else {
        match find(parts[0], seq!['=']) {
            None => None,
            Some(eq) => {
                let value = query_value(parts[0].skip(eq + 1));
                if is_wanted(parts[0].take(eq), keys) && is_http(value) {
                    Some(value)
                } else {
                    page_among(parts.skip(1), keys)
                }
            },
        }
    }
}

/// The web page that a query parameter with one of the keys names.
pub open spec fn url_parameter(url: Seq<char>, keys: Seq<Seq<char>>) -> Option<Seq<char>> {
    match find(url, seq!['?']) {
        None => None,
        Some(q) => page_among(split(url.skip(q + 1), '&'), keys),
    }
}

/// The first position of a character in a text.
pub fn index_of_char(s: &[char], c: char) -> (r: Option<usize>)
    ensures
        match r {
            Some(i) => find(s@, seq![c]) == Some(i as int) && i < s.len(),
            None => find(s@, seq![c]) is None,
        },
{
    let mut one: Vec<char> = Vec::new();
    one.push(c);
    assert(one@ == seq![c]);
    proof {
        crate::text::lemma_find_from(s@, seq![c], 0);
    }
    index_from(s, one.as_slice(), 0)
}

fn wanted(key: &[char], keys: &[&str]) -> (r: bool)
    ensures
        r == is_wanted(key@, keys.deep_view()),
{
    let n: usize = keys.len();
    let mut i: usize = 0;
    while i < n
        invariant
            0 <= i <= n,
            n == keys@.len(),
            forall|j: int|
                0 <= j < i ==> !same_ignoring_case(key@, #[trigger] keys.deep_view()[j]),
        decreases n - i,
    {
        if equal_ignoring_case(key, keys[i]) {
            assert(same_ignoring_case(key@, keys.deep_view()[i as int]));
            return true;
        }
        i += 1;
    }
    false
}

/// The web page that a query parameter with one of the keys names.
pub fn decode_url_parameter(url: &str, keys: &[&str]) -> (r: Option<String>)
    ensures
        match r {
            Some(v) => url_parameter(url@, keys.deep_view()) == Some(v@),
            None => url_parameter(url@, keys.deep_view()) is None,
        },
{
    let c = chars_of(url);
    let q: usize = match index_of_char(c.as_slice(), '?') {
        Some(q) => q,
        None => {
            return None;
        },
    };
    let query = copy_range(c.as_slice(), q + 1, c.len());
    assert(query@ == url@.skip(q + 1));
    let parts = split_of(query.as_slice(), '&');
    let n: usize = parts.len();
    let ghost all = split(query@, '&');
    let mut i: usize = 0;
    assert(all.skip(0) == all);
    proof {
        reveal_strlit("+");
    }
    while i < n
        invariant
            0 <= i <= n,
            n == parts@.len(),
            "+"@.len() == 1,
            all == parts.deep_view(),
            page_among(all, keys.deep_view()) == page_among(all.skip(i as int), keys.deep_view()),
            url_parameter(url@, keys.deep_view()) == page_among(all, keys.deep_view()),
        decreases n - i,
    {
        let part = &parts[i];
        let ghost rest = all.skip(i as int);
        assert(rest[0] == part@);
        assert(rest.skip(1) == all.skip(i + 1));
        match index_of_char(part.as_slice(), '=') {
            None => {
                return None;
            },
            Some(eq) => {
                let key = copy_range(part.as_slice(), 0, eq);
                assert(key@ == part@.take(eq as int));
                if wanted(key.as_slice(), keys) {
                    let raw = copy_range(part.as_slice(), eq + 1, part.len());
                    assert(raw@ == part@.skip(eq + 1));
                    let spaced = replace_of(raw.as_slice(), "+", " ");
                    let spaced_text = string_of(spaced.as_slice());
                    let value = percent_decode(spaced_text.as_str());
                    if has_http_scheme(value.as_str()) {
                        return Some(value);
                    }
                }
            },
        }
        i += 1;
    }
    None
}

// ---------------------------------------------------------------------------
// Kinds of pages
// ---------------------------------------------------------------------------

/// Whether one of the needles stands in a text.
pub open spec fn any_occurs(hay: Seq<char>, needles: Seq<Seq<char>>) -> bool {
    exists|i: int| 0 <= i < needles.len() && occurs(hay, #[trigger] needles[i])
}

/// Whether one of the needles stands in a text.
pub fn contains_any(hay: &[char], needles: &[&str]) -> (r: bool)
    ensures
        r == any_occurs(hay@, needles.deep_view()),
{
    let n: usize = needles.len();
    let mut i: usize = 0;
    while i < n
        invariant
            0 <= i <= n,
            n == needles@.len(),
            forall|j: int| 0 <= j < i ==> !occurs(hay@, #[trigger] needles.deep_view()[j]),
        decreases n - i,
    {
        if crate::text::contains_str(hay, needles[i]) {
            assert(occurs(hay@, needles.deep_view()[i as int]));
            return true;
        }
        i += 1;
    }
    false
}

/// What marks the URLs of Google's own pages.
pub open spec fn google_marks() -> Seq<Seq<char>> {
    seq!["://news.google."@, "://www.google."@, "://google."@]
}

/// What marks the URLs of pages whose content changes while they stay in place.
pub open spec fn rolling_marks() -> Seq<Seq<char>> {
    seq![
        "ticker"@,
        "liveticker"@,
        "liveblog"@,
        "newsblog"@,
        "live-blog"@,
        "live-ticker"@,
    ]
}

/// Whether a URL leads to one of Google's own pages.
pub fn looks_like_google_url(url: &str) -> (r: bool)
    ensures
        r == any_occurs(lowercase(url@), google_marks()),
{
    let lower = url.to_lowercase();
    let c = chars_of(lower.as_str());
    let marks = vec!["://news.google.", "://www.google.", "://google."];
    let needles = marks.as_slice();
    assert(needles.deep_view() =~= google_marks());
    contains_any(c.as_slice(), needles)
}

/// Whether a URL leads to a ticker or a live blog.
pub fn looks_like_rolling_url(url: &str) -> (r: bool)
    ensures
        r == any_occurs(lowercase(url@), rolling_marks()),
{
    let lower = url.to_lowercase();
    let c = chars_of(lower.as_str());
    let marks = vec!["ticker", "liveticker", "liveblog", "newsblog", "live-blog", "live-ticker"];
    let needles = marks.as_slice();
    assert(needles.deep_view() =~= rolling_marks());
    contains_any(c.as_slice(), needles)
}

// ---------------------------------------------------------------------------
// Laws
// ---------------------------------------------------------------------------

/// The encoding of an ASCII character and what follows it.
proof fn lemma_encode_ascii(c: char, rest: Seq<char>)
    requires
        (c as u32) < 128,
    ensures
        encode_utf8(seq![c] + rest) == seq![c as u8] + encode_utf8(rest),
{
    let s = seq![c] + rest;
    assert(s.drop_first() == rest);
    let n = c as u32;
    assert(n as u8 == vstd::utf8::leading_byte_width_1(n)) by (bit_vector)
        requires
            vstd::utf8::has_width_1_encoding(n),
    ;
    assert(vstd::utf8::encode_scalar(n) == seq![c as u8]);
}

/// One step of [`replace`] of `+` by a space.
proof fn lemma_plus_step(c: char, rest: Seq<char>)
    ensures
        replace(seq![c] + rest, "+"@, " "@) == seq![if c == '+' {
            ' '
        } else {
            c
        }] + replace(rest, "+"@, " "@),
{
    reveal_strlit("+");
    reveal_strlit(" ");
    let s = seq![c] + rest;
    assert(s.skip(1) == rest);
    assert(" "@ == seq![' ']);
    if c == '+' {
        assert(s.subrange(0, 1) == "+"@);
    } else if crate::text::occurs_at(s, "+"@, 0) {
        assert(s.subrange(0, 1)[0] == s[0]);
    }
}

/// Two hexadecimal digits give the byte that they were made from.
proof fn lemma_hex_pair(b: u8)
    ensures
        (hex_char((b / 16) as int) as u32) < 128,
        (hex_char((b % 16) as int) as u32) < 128,
        hex_char((b / 16) as int) != '+',
        hex_char((b % 16) as int) != '+',
        hex_pair(hex_char((b / 16) as int) as u8, hex_char((b % 16) as int) as u8) == Some(
            b as int,
        ),
{
    let h = hex_char((b / 16) as int);
    let l = hex_char((b % 16) as int);
    let s = seq![(h as u8) as char, (l as u8) as char];
    assert(s == seq![h, l]);
    assert(crate::num::without_plus(s) == s);
    assert(s.drop_last() == seq![h]);
    assert(s.drop_last().drop_last() == Seq::<char>::empty());
    reveal_with_fuel(crate::num::digits_value, 3);
}

proof fn lemma_decode_encoded_byte(b: u8, rest: Seq<char>)
    ensures
        percent_bytes(encode_utf8(replace(encode_byte(b) + rest, "+"@, " "@))) == seq![b]
            + percent_bytes(encode_utf8(replace(rest, "+"@, " "@))),
{
    let tail = replace(rest, "+"@, " "@);
    if unreserved(b) || b == 0x20 {
        let c = if b == 0x20 {
            '+'
        } else {
            b as char
        };
        let d = b as char;
        assert(encode_byte(b) == seq![c]);
        lemma_plus_step(c, rest);
        lemma_encode_ascii(d, tail);
        let e = seq![b] + encode_utf8(tail);
        assert(e.skip(1) == encode_utf8(tail));
    } else {
        let h = hex_char((b / 16) as int);
        let l = hex_char((b % 16) as int);
        lemma_hex_pair(b);
        assert(encode_byte(b) + rest == seq!['%'] + (seq![h] + (seq![l] + rest)));
        lemma_plus_step('%', seq![h] + (seq![l] + rest));
        lemma_plus_step(h, seq![l] + rest);
        lemma_plus_step(l, rest);
        lemma_encode_ascii('%', seq![h] + (seq![l] + tail));
        lemma_encode_ascii(h, seq![l] + tail);
        lemma_encode_ascii(l, tail);
        let e = seq![0x25u8] + (seq![h as u8] + (seq![l as u8] + encode_utf8(tail)));
        assert(e[1] == h as u8);
        assert(e[2] == l as u8);
        assert(e.skip(3) == encode_utf8(tail));
    }
}

proof fn lemma_decode_encoded_bytes(bytes: Seq<u8>)
    ensures
        percent_bytes(encode_utf8(replace(encode_bytes(bytes), "+"@, " "@))) == bytes,
    decreases bytes.len(),
{
    if bytes.len() > 0 {
        lemma_decode_encoded_bytes(bytes.skip(1));
        lemma_decode_encoded_byte(bytes[0], encode_bytes(bytes.skip(1)));
        assert(seq![bytes[0]] + bytes.skip(1) == bytes);
    }
}

/// What is encoded as a query value is read back from it, whatever the text.
pub proof fn law_query_value_undoes_url_encode(s: Seq<char>)
    ensures
        query_value(url_encoded(s)) == s,
{
    lemma_decode_encoded_bytes(encode_utf8(s));
    vstd::utf8::encode_utf8_valid_utf8(s);
    vstd::utf8::encode_utf8_decode_utf8(s);
}

/// Whether a character can stand in an encoded query value.
pub open spec fn is_encoded_char(c: char) -> bool {
    ||| 'A' <= c <= 'Z'
    ||| 'a' <= c <= 'z'
    ||| '0' <= c <= '9'
    ||| c == '-'
    ||| c == '_'
    ||| c == '.'
    ||| c == '~'
    ||| c == '+'
    ||| c == '%'
}

proof fn lemma_encoded_chars(bytes: Seq<u8>)
    ensures
        forall|i: int|
            0 <= i < encode_bytes(bytes).len() ==> is_encoded_char(
                #[trigger] encode_bytes(bytes)[i],
            ),
    decreases bytes.len(),
{
    if bytes.len() > 0 {
        let head = encode_byte(bytes[0]);
        let tail = encode_bytes(bytes.skip(1));
        let all = encode_bytes(bytes);
        lemma_encoded_chars(bytes.skip(1));
        assert forall|i: int| 0 <= i < all.len() implies is_encoded_char(#[trigger] all[i]) by {
            if i < head.len() {
                assert(all[i] == head[i]);
            } else {
                assert(all[i] == tail[i - head.len()]);
            }
        }
    }
}

/// An encoded query value has nothing in it that ends it, or the query.
pub proof fn law_encoded_values_are_whole(s: Seq<char>)
    ensures
        forall|i: int|
            0 <= i < url_encoded(s).len() ==> is_encoded_char(#[trigger] url_encoded(s)[i]),
        !url_encoded(s).contains('&'),
        !url_encoded(s).contains('='),
        !url_encoded(s).contains('?'),
        !url_encoded(s).contains('#'),
        !url_encoded(s).contains(' '),
{
    lemma_encoded_chars(encode_utf8(s));
}

/// A page that is passed on in a query parameter is read back from it, whatever stands behind
/// the parameter.
pub proof fn law_passed_on_pages_are_read_back(
    base: Seq<char>,
    target: Seq<char>,
    more: Seq<char>,
    keys: Seq<Seq<char>>,
    i: int,
)
    requires
        0 <= i < keys.len(),
        !base.contains('?'),
        !keys[i].contains('='),
        !keys[i].contains('&'),
        is_http(target),
        more.len() == 0 || more[0] == '&',
    ensures
        url_parameter(base + "?"@ + keys[i] + "="@ + url_encoded(target) + more, keys) == Some(
            target,
        ),
{
    reveal_strlit("?");
    reveal_strlit("=");
    let key = keys[i];
    let value = url_encoded(target);
    let part = key + "="@ + value;
    let url = base + "?"@ + key + "="@ + value + more;
    law_encoded_values_are_whole(target);
    law_query_value_undoes_url_encode(target);
    let q = base.len() as int;
    lemma_find_from(url, seq!['?'], 0);
    assert(url.subrange(q, q + 1) == seq!['?']);
    assert(occurs_at(url, seq!['?'], q));
    if let Some(k) = find(url, seq!['?']) {
        if k < q {
            assert(url.subrange(k, k + 1)[0] == base[k]);
            assert(base.contains(base[k]));
        }
        assert(k == q);
    }
    assert(url.skip(q + 1) == part + more);
    assert forall|j: int| 0 <= j < part.len() implies part[j] != '&' by {
        if j < key.len() {
            assert(part[j] == key[j]);
            assert(key.contains(key[j]));
        } else if j > key.len() {
            assert(part[j] == value[j - key.len() - 1]);
            assert(value.contains(value[j - key.len() - 1]));
        }
    }
    lemma_first_piece(part, more, '&');
    let parts = split(part + more, '&');
    let e = key.len() as int;
    lemma_find_from(part, seq!['='], 0);
    assert(part.subrange(e, e + 1) == seq!['=']);
    assert(occurs_at(part, seq!['='], e));
    if let Some(k) = find(part, seq!['=']) {
        if k < e {
            assert(part.subrange(k, k + 1)[0] == key[k]);
            assert(key.contains(key[k]));
        }
        assert(k == e);
    }
    assert(part.take(e) == key);
    assert(part.skip(e + 1) == value);
    assert(same_ignoring_case(key, keys[i]));
    assert(parts[0] == part);
}

/// Only web pages are read from query parameters.
pub proof fn law_only_web_pages_are_passed_on(parts: Seq<Seq<char>>, keys: Seq<Seq<char>>)
    ensures
        page_among(parts, keys) matches Some(page) ==> starts_with(page, "http://"@) || starts_with(
            page,
            "https://"@,
        ),
    decreases parts.len(),
{
    if parts.len() > 0 {
        law_only_web_pages_are_passed_on(parts.skip(1), keys);
    }
}

/// Letters are the same in either case, and other characters only as they are.
pub proof fn law_case_does_not_matter(a: Seq<char>, b: Seq<char>, c: Seq<char>)
    ensures
        same_ignoring_case(a, a),
        same_ignoring_case(a, b) ==> same_ignoring_case(b, a),
        same_ignoring_case(a, b) && same_ignoring_case(b, c) ==> same_ignoring_case(a, c),
        same_ignoring_case(a, b) ==> a.len() == b.len(),
        forall|i: int|
            same_ignoring_case(a, b) && 0 <= i < a.len() && #[trigger] a[i] != b[i] ==> (('a' <= a[i]
                <= 'z' && a[i] as int - b[i] as int == 32) || ('A' <= a[i] <= 'Z' && b[i] as int
                - a[i] as int == 32)),
{
    if same_ignoring_case(a, b) {
        assert forall|i: int| 0 <= i < b.len() implies ascii_lower(#[trigger] b[i]) == ascii_lower(
            a[i],
        ) by {
            assert(ascii_lower(a[i]) == ascii_lower(b[i]));
        }
        if same_ignoring_case(b, c) {
            assert forall|i: int| 0 <= i < a.len() implies ascii_lower(#[trigger] a[i])
                == ascii_lower(c[i]) by {
                assert(ascii_lower(b[i]) == ascii_lower(c[i]));
            }
        }
    }
}

/// Whether a parameter has a name that is looked for and a web page as its value.
pub open spec fn passes_on(key: Seq<char>, value: Seq<char>, keys: Seq<Seq<char>>) -> bool {
    &&& exists|i: int| 0 <= i < keys.len() && same_ignoring_case(key, #[trigger] keys[i])
    &&& starts_with(query_value(value), "http://"@) || starts_with(
        query_value(value),
        "https://"@,
    )
}

/// Whether a part of a query is a parameter that passes nothing on.
pub open spec fn passes_nothing_on(part: Seq<char>, keys: Seq<Seq<char>>) -> bool {
    &&& part.contains('=')
    &&& forall|key: Seq<char>, value: Seq<char>|
        !key.contains('=') && part == #[trigger] (key + seq!['='] + value) ==> !passes_on(
            key,
            value,
            keys,
        )
}

proof fn lemma_equals_sign(key: Seq<char>, value: Seq<char>)
    requires
        !key.contains('='),
    ensures
        find(key + seq!['='] + value, seq!['=']) == Some(key.len() as int),
        (key + seq!['='] + value).take(key.len() as int) == key,
        (key + seq!['='] + value).skip(key.len() as int + 1) == value,
{
    let part = key + seq!['='] + value;
    let e = key.len() as int;
    lemma_find_from(part, seq!['='], 0);
    assert(part.subrange(e, e + 1) == seq!['=']);
    assert(occurs_at(part, seq!['='], e));
    assert forall|j: int| 0 <= j < e implies !occurs_at(part, seq!['='], j) by {
        assert(part.subrange(j, j + 1)[0] == key[j]);
        assert(key.contains(key[j]));
    }
}

proof fn lemma_parameter(part: Seq<char>)
    ensures
        match find(part, seq!['=']) {
            Some(e) => 0 <= e < part.len() && part == part.take(e) + seq!['='] + part.skip(e + 1)
                && !part.take(e).contains('=') && part.contains('='),
            None => !part.contains('='),
        },
{
    lemma_find_from(part, seq!['='], 0);
    match find(part, seq!['=']) {
        Some(e) => {
            assert(part.subrange(e, e + 1)[0] == part[e]);
            assert(part == part.take(e) + seq!['='] + part.skip(e + 1));
            assert forall|j: int| 0 <= j < e implies part[j] != '=' by {
                if part[j] == '=' {
                    assert(part.subrange(j, j + 1) == seq!['=']);
                    assert(occurs_at(part, seq!['='], j));
                }
            }
        },
        None => {
            assert forall|j: int| 0 <= j < part.len() implies part[j] != '=' by {
                if part[j] == '=' {
                    assert(part.subrange(j, j + 1) == seq!['=']);
                    assert(occurs_at(part, seq!['='], j));
                }
            }
        },
    }
}

/// Of the parameters of a query the first that passes a web page on counts, behind any that
/// pass nothing on. A part that is no parameter ends the search.
pub proof fn law_the_first_passed_on_page_counts(
    parts: Seq<Seq<char>>,
    keys: Seq<Seq<char>>,
    i: int,
    key: Seq<char>,
    value: Seq<char>,
)
    requires
        0 <= i < parts.len(),
        forall|j: int| 0 <= j < i ==> passes_nothing_on(#[trigger] parts[j], keys),
    ensures
        !key.contains('=') && parts[i] == key + seq!['='] + value && passes_on(key, value, keys)
            ==> page_among(parts, keys) == Some(query_value(value)),
        !parts[i].contains('=') ==> page_among(parts, keys) is None,
    decreases i,
{
    lemma_parameter(parts[0]);
    if i == 0 {
        if !key.contains('=') && parts[i] == key + seq!['='] + value {
            lemma_equals_sign(key, value);
        }
    } else {
        let rest = parts.skip(1);
        assert(passes_nothing_on(parts[0], keys));
        let e = find(parts[0], seq!['='])->0;
        assert(parts[0] == parts[0].take(e) + seq!['='] + parts[0].skip(e + 1));
        assert(!passes_on(parts[0].take(e), parts[0].skip(e + 1), keys));
        assert forall|j: int| 0 <= j < i - 1 implies passes_nothing_on(
            #[trigger] rest[j],
            keys,
        ) by {
            assert(rest[j] == parts[j + 1]);
        }
        law_the_first_passed_on_page_counts(rest, keys, i - 1, key, value);
        assert(page_among(parts, keys) == page_among(rest, keys));
    }
}

} // verus!

//! News articles in web pages: finding the body, and where the page really is.
//!
//! Tags are found in the lowercase spelling of a page and cut out of the page
//! itself, both by byte positions. Where lowercase letters have other lengths
//! than their capitals the positions can fall inside of a character: then
//! nothing can be cut out, and the functions here say so with an outer `None`.

use vstd::prelude::*;
use vstd::utf8::{
    decode_utf8, encode_utf8, is_char_boundary, is_char_boundary_iff_not_is_continuation_byte,
    is_char_boundary_start_end_of_seq, is_continuation_byte, valid_utf8, valid_utf8_concat,
    valid_utf8_split,
};

use crate::bytes::{
    byte_index_from, byte_len, can_cut, cut, lemma_boundary_at_ascii, lemma_decode_of,
    lemma_encode_concat, slice_str, str_index_from,
};
use crate::html::{decode_entities, decoded, strip_html, stripped};
use crate::text::{
    chars_of, copy_range, find_from, is_blank, law_until_the_first, lemma_added, lemma_find_from,
    lemma_occurs_within, lowercase, occurs, occurs_at, string_of, trim_str, trimmed, until,
    until_of, words, words_of,
};
use crate::url::{
    any_occurs, decode_url_parameter, equal_ignoring_case, google_marks, has_http_scheme, is_http,
    looks_like_google_url, looks_like_rolling_url, rolling_marks, same_ignoring_case, url_parameter,
};
use crate::words::{count_hits, hits, is_about, law_hits_are_counted, text_matches_title};

verus! {

// ---------------------------------------------------------------------------
// Elements
// ---------------------------------------------------------------------------

/// What the start tag of an element begins with.
pub open spec fn start_mark(name: Seq<char>) -> Seq<char> {
    "<"@ + name
}

/// The end tag of an element.
pub open spec fn end_mark(name: Seq<char>) -> Seq<char> {
    "</"@ + name + ">"@
}

/// The start tags and the contents of the elements with the given marks, from a
/// position in the lowercase page on; `None` where a position cannot be cut at.
pub open spec fn blocks_from(
    html: Seq<u8>,
    lower: Seq<u8>,
    open: Seq<u8>,
    close: Seq<u8>,
    from: int,
) -> Option<Seq<(Seq<char>, Seq<char>)>>
    decreases lower.len() - from,
{
    if from < 0 || !is_char_boundary(lower, from) {
        None
    } else {
        match find_from(lower, open, from) {
            None => Some(seq![]),
            Some(start) => if !is_char_boundary(html, start) {
                None
            } else {
                match find_from(html, seq![0x3eu8], start) {
                    None => Some(seq![]),
                    Some(gt) => if !is_char_boundary(lower, gt + 1) {
                        None
                    } else {
                        match find_from(lower, close, gt + 1) {
                            None => Some(seq![]),
                            Some(end) => {
                                proof {
                                    lemma_find_from(lower, open, from);
                                    lemma_find_from(html, seq![0x3eu8], start);
                                    lemma_find_from(lower, close, gt + 1);
                                }
                                if !can_cut(html, gt + 1, end) {
                                    None
                                } else {
                                    match blocks_from(html, lower, open, close, end + close.len()) {
                                        Some(rest) => Some(
                                            seq![(cut(html, start, gt + 1), cut(html, gt + 1, end))]
                                                + rest,
                                        ),
                                        None => None,
                                    }
                                }
                            },
                        }
                    },
                }
            },
        }
    }
}

/// The start tags and the contents of the elements of a page with a name.
pub open spec fn blocks(html: Seq<char>, lower: Seq<char>, name: Seq<char>) -> Option<
    Seq<(Seq<char>, Seq<char>)>,
> {
    blocks_from(
        encode_utf8(html),
        encode_utf8(lower),
        encode_utf8(start_mark(name)),
        encode_utf8(end_mark(name)),
        0,
    )
}

fn start_mark_of(name: &str) -> (r: String)
    ensures
        r@ == start_mark(name@),
{
    let mut out = String::new();
    out.append("<");
    out.append(name);
    assert(out@ == start_mark(name@));
    out
}

fn end_mark_of(name: &str) -> (r: String)
    ensures
        r@ == end_mark(name@),
{
    let mut out = String::new();
    out.append("</");
    out.append(name);
    out.append(">");
    assert(out@ == end_mark(name@));
    out
}

/// The marks of an element are not empty, and can be cut off.
proof fn lemma_marks(name: Seq<char>)
    ensures
        encode_utf8(start_mark(name)).len() > 0,
        encode_utf8(start_mark(name))[0] == 0x3c,
        encode_utf8(end_mark(name)).len() > 1,
        encode_utf8(end_mark(name))[0] == 0x3c,
        encode_utf8(end_mark(name)).last() == 0x3e,
{
    reveal_strlit("<");
    reveal_strlit("</");
    reveal_strlit(">");
    vstd::utf8::is_ascii_chars_encode_utf8("<"@);
    vstd::utf8::is_ascii_chars_encode_utf8("</"@);
    vstd::utf8::is_ascii_chars_encode_utf8(">"@);
    lemma_encode_concat("<"@, name);
    lemma_encode_concat("</"@ + name, ">"@);
    lemma_encode_concat("</"@, name);
}

/// The start tags and the contents of the elements of a page with a name, given
/// the page in lowercase.
pub fn tag_blocks_in<'a>(html: &'a str, lower: &str, tag_name: &str) -> (r: Option<
    Vec<(&'a str, &'a str)>,
>)
    ensures
        r.deep_view() == blocks(html@, lower@, tag_name@),
{
    let open = start_mark_of(tag_name);
    let close = end_mark_of(tag_name);
    let close_len: usize = byte_len(close.as_str());
    let gt_mark = vec![0x3eu8];
    let ghost h = encode_utf8(html@);
    let ghost l = encode_utf8(lower@);
    let ghost o = encode_utf8(open@);
    let ghost c = encode_utf8(close@);
    proof {
        lemma_marks(tag_name@);
        lemma_decode_of(html@);
        lemma_decode_of(lower@);
        assert(gt_mark@ == seq![0x3eu8]);
    }
    let mut out: Vec<(&'a str, &'a str)> = Vec::new();
    let mut offset: usize = 0;
    assert(out.deep_view() == Seq::<(Seq<char>, Seq<char>)>::empty());
    proof {
        match blocks_from(h, l, o, c, 0) {
            Some(rest) => {
                assert(out.deep_view() + rest == rest);
            },
            None => {},
        }
    }
    loop
        invariant
            h == encode_utf8(html@),
            l == encode_utf8(lower@),
            o == encode_utf8(open@),
            c == encode_utf8(close@),
            close_len == c.len(),
            c.len() > 0,
            o.len() > 0,
            valid_utf8(h),
            valid_utf8(l),
            gt_mark@ == seq![0x3eu8],
            offset <= l.len(),
            blocks(html@, lower@, tag_name@) == blocks_from(h, l, o, c, 0),
            blocks_from(h, l, o, c, 0) == (match blocks_from(h, l, o, c, offset as int) {
                Some(rest) => Some(out.deep_view() + rest),
                None => None,
            }),
        decreases l.len() - offset,
    {
        if !lower.is_char_boundary(offset) {
            return None;
        }
        assert(out.deep_view() + Seq::<(Seq<char>, Seq<char>)>::empty() == out.deep_view());
        let start: usize = match str_index_from(lower, open.as_str(), offset) {
            Some(i) => i,
            None => {
                return Some(out);
            },
        };
        if !html.is_char_boundary(start) {
            return None;
        }
        let gt: usize = match byte_index_from(html.as_bytes(), gt_mark.as_slice(), start) {
            Some(i) => i,
            None => {
                return Some(out);
            },
        };
        proof {
            lemma_find_from(h, seq![0x3eu8], start as int);
            assert(h.subrange(gt as int, gt + 1)[0] == h[gt as int]);
            lemma_boundary_at_ascii(h, gt as int);
        }
        let inner: usize = gt + 1;
        if !lower.is_char_boundary(inner) {
            return None;
        }
        let end: usize = match str_index_from(lower, close.as_str(), inner) {
            Some(i) => i,
            None => {
                return Some(out);
            },
        };
        if !html.is_char_boundary(end) {
            return None;
        }
        let tag = slice_str(html, start, inner);
        let content = slice_str(html, inner, end);
        let ghost before = out.deep_view();
        out.push((tag, content));
        proof {
            assert(out.deep_view() == before.push((tag@, content@))) by {
                assert((tag, content).deep_view() == (tag@, content@));
            }
            match blocks_from(h, l, o, c, end + c.len()) {
                Some(rest) => {
                    assert(before + (seq![(tag@, content@)] + rest) == out.deep_view() + rest);
                },
                None => {},
            }
        }
        offset = end + close_len;
    }
}

/// The start tags and the contents of the elements of a page with a name. The
/// page can be cut where its tags are.
pub fn tag_blocks<'a>(html: &'a str, tag_name: &str) -> (r: Vec<(&'a str, &'a str)>)
    requires
        blocks(html@, lowercase(html@), tag_name@) is Some,
    ensures
        Some(r.deep_view()) == blocks(html@, lowercase(html@), tag_name@),
{
    let lower = html.to_lowercase();
    tag_blocks_in(html, lower.as_str(), tag_name).unwrap()
}

/// The start tags and the contents of the elements of a page with a name;
/// `None` where the page cannot be cut where its tags are.
pub fn try_tag_blocks<'a>(html: &'a str, tag_name: &str) -> (r: Option<Vec<(&'a str, &'a str)>>)
    ensures
        r.deep_view() == blocks(html@, lowercase(html@), tag_name@),
{
    let lower = html.to_lowercase();
    match tag_blocks_in(html, lower.as_str(), tag_name) {
        Some(_) => Some(tag_blocks(html, tag_name)),
        None => None,
    }
}

// ---------------------------------------------------------------------------
// Removing elements
// ---------------------------------------------------------------------------

/// The page without everything from the first start mark to the first end mark behind
/// it, again and again; `None` where a position cannot be cut at.
pub open spec fn removed(html: Seq<u8>, lower: Seq<u8>, open: Seq<u8>, close: Seq<u8>) -> Option<
    Seq<u8>,
>
    decreases lower.len(),
{
    match find_from(lower, open, 0) {
        Some(start) => match find_from(lower, close, start + 1) {
            Some(at) => {
                let end = at + close.len();
                proof {
                    lemma_find_from(lower, open, 0);
                    lemma_find_from(lower, close, start + 1);
                }
                if can_cut(html, 0, start) && can_cut(html, end, html.len() as int) {
                    removed(
                        html.subrange(0, start) + html.subrange(end, html.len() as int),
                        lower.subrange(0, start) + lower.subrange(end, lower.len() as int),
                        open,
                        close,
                    )
                } else {
                    None
                }
            },
            None => Some(html),
        },
        None => Some(html),
    }
}

/// The page without its elements with a name.
pub open spec fn without(html: Seq<char>, lower: Seq<char>, name: Seq<char>) -> Option<Seq<u8>> {
    removed(
        encode_utf8(html),
        encode_utf8(lower),
        encode_utf8(start_mark(name)),
        encode_utf8(end_mark(name)),
    )
}

/// The page without its elements with one of the names, name by name.
pub open spec fn without_all(html: Seq<char>, names: Seq<Seq<char>>) -> Option<Seq<char>>
    decreases names.len(),
{
    if names.len() == 0 {
        Some(html)
    } else {
        match without(html, lowercase(html), names[0]) {
            Some(rest) => without_all(decode_utf8(rest), names.skip(1)),
            None => None,
        }
    }
}

/// The string without the bytes from `i` to `j`.
fn take_out(s: &str, i: usize, j: usize) -> (r: String)
    requires
        i <= j,
        can_cut(encode_utf8(s@), 0, i as int),
        can_cut(encode_utf8(s@), j as int, encode_utf8(s@).len() as int),
    ensures
        encode_utf8(r@) == encode_utf8(s@).subrange(0, i as int) + encode_utf8(s@).subrange(
            j as int,
            encode_utf8(s@).len() as int,
        ),
{
    let n: usize = byte_len(s);
    let head = slice_str(s, 0, i);
    let tail = slice_str(s, j, n);
    let mut out = String::new();
    out.append(head);
    out.append(tail);
    proof {
        assert(out@ == head@ + tail@);
        lemma_encode_concat(head@, tail@);
    }
    out
}

/// The page without its elements with a name, given the page in lowercase.
pub fn remove_block_in(html: &str, lower: &str, tag: &str) -> (r: Option<String>)
    ensures
        match r {
            Some(s) => without(html@, lower@, tag@) == Some(encode_utf8(s@)),
            None => without(html@, lower@, tag@) is None,
        },
{
    let open = start_mark_of(tag);
    let close = end_mark_of(tag);
    let close_len: usize = byte_len(close.as_str());
    let ghost o = encode_utf8(open@);
    let ghost c = encode_utf8(close@);
    let mut result = html.to_owned();
    let mut low = lower.to_owned();
    proof {
        lemma_marks(tag@);
    }
    loop
        invariant
            o == encode_utf8(open@),
            c == encode_utf8(close@),
            o.len() > 0,
            o[0] == 0x3c,
            c.len() > 1,
            c[0] == 0x3c,
            c.last() == 0x3e,
            close_len == c.len(),
            without(html@, lower@, tag@) == removed(encode_utf8(result@), encode_utf8(low@), o, c),
        decreases encode_utf8(low@).len(),
    {
        let ghost l = encode_utf8(low@);
        let ghost h = encode_utf8(result@);
        let start: usize = match str_index_from(low.as_str(), open.as_str(), 0) {
            Some(i) => i,
            None => {
                return Some(result);
            },
        };
        let at: usize = match str_index_from(low.as_str(), close.as_str(), start + 1) {
            Some(i) => i,
            None => {
                return Some(result);
            },
        };
        let end: usize = at + close_len;
        proof {
            lemma_decode_of(low@);
            lemma_decode_of(result@);
            lemma_find_from(l, o, 0);
            lemma_find_from(l, c, start + 1);
            assert(l.subrange(start as int, start + o.len())[0] == l[start as int]);
            assert(l.subrange(at as int, at + c.len())[c.len() - 1] == l[end - 1]);
            lemma_boundary_at_ascii(l, start as int);
            lemma_boundary_at_ascii(l, end - 1);
            vstd::utf8::is_char_boundary_start_end_of_seq(l);
            vstd::utf8::is_char_boundary_start_end_of_seq(h);
        }
        if !result.as_str().is_char_boundary(start) || !result.as_str().is_char_boundary(end) {
            return None;
        }
        result = take_out(result.as_str(), start, end);
        low = take_out(low.as_str(), start, end);
    }
}

fn remove_blocks_checked(html: &str, tags: &[&str]) -> (r: Option<String>)
    ensures
        r.deep_view() == without_all(html@, tags.deep_view()),
{
    let ghost all = tags.deep_view();
    let n: usize = tags.len();
    let mut result = html.to_owned();
    let mut i: usize = 0;
    assert(all.skip(0) == all);
    while i < n
        invariant
            0 <= i <= n,
            n == tags@.len(),
            all == tags.deep_view(),
            without_all(html@, all) == without_all(result@, all.skip(i as int)),
        decreases n - i,
    {
        let ghost rest = all.skip(i as int);
        assert(rest.skip(1) == all.skip(i + 1));
        assert(rest[0] == tags@[i as int]@);
        let lower = result.as_str().to_lowercase();
        match remove_block_in(result.as_str(), lower.as_str(), tags[i]) {
            Some(s) => {
                proof {
                    lemma_decode_of(s@);
                }
                result = s;
            },
            None => {
                return None;
            },
        }
        i += 1;
    }
    Some(result)
}

/// The page without its elements with one of the names. The page can be cut
/// where its tags are.
pub fn remove_blocks(html: &str, tags: &[&str]) -> (r: String)
    requires
        without_all(html@, tags.deep_view()) is Some,
    ensures
        Some(r@) == without_all(html@, tags.deep_view()),
{
    remove_blocks_checked(html, tags).unwrap()
}

/// The page without its elements with one of the names; `None` where the page
/// cannot be cut where its tags are.
pub fn try_remove_blocks(html: &str, tags: &[&str]) -> (r: Option<String>)
    ensures
        r.deep_view() == without_all(html@, tags.deep_view()),
{
    match remove_blocks_checked(html, tags) {
        Some(_) => Some(remove_blocks(html, tags)),
        None => None,
    }
}

// ---------------------------------------------------------------------------
// The body of an article
// ---------------------------------------------------------------------------

/// What the start tags of elements with an article in them hold.
pub open spec fn article_marks() -> Seq<Seq<char>> {
    seq![
        "article"@,
        "articlebody"@,
        "story"@,
        "content"@,
        "main"@,
        "post"@,
        "entry"@,
        "body"@,
        "meldung"@,
        "text"@,
    ]
}

/// What the start tags of elements around an article hold.
pub open spec fn chrome_marks() -> Seq<Seq<char>> {
    seq![
        "nav"@,
        "menu"@,
        "footer"@,
        "header"@,
        "aside"@,
        "comment"@,
        "related"@,
        "teaser"@,
        "ad"@,
        "advert"@,
        "social"@,
    ]
}

/// The value of the lowest 32 bits of a number, read as a signed number.
pub open spec fn low_32_bits(n: int) -> int {
    let m = n % 0x1_0000_0000;
    if m < 0x8000_0000 {
        m
    } else {
        m - 0x1_0000_0000
    }
}

/// The quotient of a division by 80, rounded towards zero.
pub open spec fn per_80(n: int) -> int {
    if n >= 0 {
        n / 80
    } else {
        -((-n) / 80)
    }
}

/// How much an element looks like the body of an article, given its start tag
/// in lowercase and the number of its words.
pub open spec fn container_score(lower_tag: Seq<char>, n_words: int) -> int {
    let long = per_80(low_32_bits(n_words));
    4 * hits(article_marks(), lower_tag) - 5 * hits(chrome_marks(), lower_tag) + (if long < 8 {
        long
    } else {
        8
    })
}

fn low_32_bits_of(n: usize) -> (r: i32)
    ensures
        r == low_32_bits(n as int),
{
    let m: u64 = (n as u64) % 0x1_0000_0000;
    if m < 0x8000_0000 {
        m as i32
    } else {
        (m as i64 - 0x1_0000_0000) as i32
    }
}

/// How much an element looks like the body of an article, given its start tag
/// in lowercase and the number of its words.
pub fn container_score_of(lower_tag: &str, n_words: usize) -> (r: i32)
    ensures
        r == container_score(lower_tag@, n_words as int),
{
    let c = chars_of(lower_tag);
    let good = vec![
        "article", "articlebody", "story", "content", "main", "post", "entry", "body", "meldung",
        "text",
    ];
    let bad = vec![
        "nav", "menu", "footer", "header", "aside", "comment", "related", "teaser", "ad", "advert",
        "social",
    ];
    let good_marks = good.as_slice();
    let bad_marks = bad.as_slice();
    assert(good_marks.deep_view() =~= article_marks());
    assert(bad_marks.deep_view() =~= chrome_marks());
    let plus: i32 = count_hits(good_marks, c.as_slice()) as i32;
    let minus: i32 = count_hits(bad_marks, c.as_slice()) as i32;
    let w: i32 = low_32_bits_of(n_words);
    let long: i32 = if w >= 0 {
        w / 80
    } else {
        (-((-(w as i64)) / 80)) as i32
    };
    let bonus: i32 = if long < 8 {
        long
    } else {
        8
    };
    4 * plus - 5 * minus + bonus
}

/// How much an element looks like the body of an article.
pub fn article_container_score(tag: &str, text: &str) -> (r: i32)
    ensures
        r == container_score(lowercase(tag@), words(text@).len() as int),
{
    let lower = tag.to_lowercase();
    let c = chars_of(text);
    let ws = words_of(c.as_slice());
    assert(ws@.len() == ws.deep_view().len());
    container_score_of(lower.as_str(), ws.len())
}

/// The better of the best element so far and another one. Elements with less
/// than 200 bytes of text are passed over, and those that look like anything
/// but an article.
pub open spec fn better(best: Option<(int, Seq<char>)>, block: (Seq<char>, Seq<char>)) -> Option<
    (int, Seq<char>),
> {
    let text = trimmed(stripped(block.1));
    let size = encode_utf8(text).len();
    let score = container_score(lowercase(block.0), words(text).len() as int);
    if size < 200 || score <= 0 {
        best
    } else {
        match best {
            None => Some((score, text)),
            Some((best_score, best_text)) => if score > best_score || (score == best_score && size
                > encode_utf8(best_text).len()) {
                Some((score, text))
            } else {
                best
            },
        }
    }
}

/// The best of elements, and of one that was found before.
pub open spec fn best_of(bs: Seq<(Seq<char>, Seq<char>)>, best: Option<(int, Seq<char>)>) -> Option<
    (int, Seq<char>),
>
    decreases bs.len(),
{
    if bs.len() == 0 {
        best
    } else {
        best_of(bs.skip(1), better(best, bs[0]))
    }
}

/// The best of the elements with one of the names, name by name; `None` where
/// the page cannot be cut where its tags are.
pub open spec fn best_named(
    page: Seq<char>,
    names: Seq<Seq<char>>,
    best: Option<(int, Seq<char>)>,
) -> Option<Option<(int, Seq<char>)>>
    decreases names.len(),
{
    if names.len() == 0 {
        Some(best)
    } else {
        match blocks(page, lowercase(page), names[0]) {
            Some(bs) => best_named(page, names.skip(1), best_of(bs, best)),
            None => None,
        }
    }
}

/// The elements that are no part of an article.
pub open spec fn chrome_names() -> Seq<Seq<char>> {
    seq!["script"@, "style"@, "nav"@, "header"@, "footer"@, "aside"@, "noscript"@]
}

/// The elements in which articles stand.
pub open spec fn container_names() -> Seq<Seq<char>> {
    seq!["article"@, "main"@, "section"@, "div"@]
}

/// The text of the best container of a page without its chrome, or else all of
/// its text; `None` where the page cannot be cut where its tags are.
pub open spec fn article_body(html: Seq<char>) -> Option<Seq<char>> {
    match without_all(html, chrome_names()) {
        None => None,
        Some(page) => match best_named(page, container_names(), None) {
            None => None,
            Some(Some((_, text))) => Some(text),
            Some(None) => Some(stripped(page)),
        },
    }
}

/// The best container so far.
struct Best {
    score: i32,
    text: String,
}

spec fn best_view(b: Option<Best>) -> Option<(int, Seq<char>)> {
    match b {
        Some(x) => Some((x.score as int, x.text@)),
        None => None,
    }
}

fn better_of(best: Option<Best>, tag: &str, inner: &str) -> (r: Option<Best>)
    ensures
        best_view(r) == better(best_view(best), (tag@, inner@)),
{
    let stripped_text = strip_html(inner);
    let text = trim_str(stripped_text.as_str());
    let size: usize = byte_len(text.as_str());
    if size < 200 {
        return best;
    }
    let score: i32 = article_container_score(tag, text.as_str());
    if score <= 0 {
        return best;
    }
    match best {
        None => Some(Best { score, text }),
        Some(b) => if score > b.score || (score == b.score && size > byte_len(b.text.as_str())) {
            Some(Best { score, text })
        } else {
            Some(b)
        },
    }
}

fn best_container(page: &str) -> (r: Option<Option<Best>>)
    ensures
        match r {
            Some(b) => best_named(page@, container_names(), None) == Some(best_view(b)),
            None => best_named(page@, container_names(), None) is None,
        },
{
    let names = vec!["article", "main", "section", "div"];
    let lower = page.to_lowercase();
    let ghost all = names.deep_view();
    let n: usize = names.len();
    let mut best: Option<Best> = None;
    let mut i: usize = 0;
    assert(all =~= container_names());
    assert(all.skip(0) == all);
    while i < n
        invariant
            0 <= i <= n,
            n == names@.len(),
            all == names.deep_view(),
            all == container_names(),
            lower@ == lowercase(page@),
            best_named(page@, container_names(), None) == best_named(
                page@,
                all.skip(i as int),
                best_view(best),
            ),
        decreases n - i,
    {
        let ghost rest = all.skip(i as int);
        assert(rest.skip(1) == all.skip(i + 1));
        assert(rest[0] == names@[i as int]@);
        let bs = match tag_blocks_in(page, lower.as_str(), names[i]) {
            Some(bs) => bs,
            None => {
                return None;
            },
        };
        let ghost blocks_here = bs.deep_view();
        let ghost best0 = best_view(best);
        let m: usize = bs.len();
        let mut k: usize = 0;
        assert(blocks_here.skip(0) == blocks_here);
        while k < m
            invariant
                0 <= k <= m,
                m == bs@.len(),
                blocks_here == bs.deep_view(),
                best_of(blocks_here, best0) == best_of(
                    blocks_here.skip(k as int),
                    best_view(best),
                ),
            decreases m - k,
        {
            let ghost tail = blocks_here.skip(k as int);
            assert(tail.skip(1) == blocks_here.skip(k + 1));
            let (tag, inner) = bs[k];
            assert(tail[0] == (tag@, inner@));
            best = better_of(best, tag, inner);
            k += 1;
        }
        i += 1;
    }
    Some(best)
}

fn article_body_checked(html: &str) -> (r: Option<String>)
    ensures
        r.deep_view() == article_body(html@),
{
    let chrome = vec!["script", "style", "nav", "header", "footer", "aside", "noscript"];
    let names = chrome.as_slice();
    assert(names.deep_view() =~= chrome_names());
    let page = match remove_blocks_checked(html, names) {
        Some(p) => p,
        None => {
            return None;
        },
    };
    match best_container(page.as_str()) {
        None => None,
        Some(Some(b)) => Some(b.text),
        Some(None) => Some(strip_html(page.as_str())),
    }
}

/// The text of the article in a page. The page can be cut where its tags are.
pub fn extract_article_body(html: &str) -> (r: String)
    requires
        article_body(html@) is Some,
    ensures
        Some(r@) == article_body(html@),
{
    article_body_checked(html).unwrap()
}

/// The text of the article in a page; `None` where the page cannot be cut where
/// its tags are.
pub fn try_extract_article_body(html: &str) -> (r: Option<String>)
    ensures
        r.deep_view() == article_body(html@),
{
    match article_body_checked(html) {
        Some(_) => Some(extract_article_body(html)),
        None => None,
    }
}

// ---------------------------------------------------------------------------
// Attributes
// ---------------------------------------------------------------------------

/// The value between quotation marks at the start of a text, if there is more
/// than white space in it.
pub open spec fn quoted(s: Seq<char>) -> Option<Seq<char>> {
    if s.len() == 0 || (s[0] != '"' && s[0] != '\'') {
        None
    } else {
        let value = trimmed(until(s.skip(1), s[0]));
        if value.len() == 0 {
            None
        } else {
            Some(value)
        }
    }
}

/// The value of an attribute, given the tag in lowercase. The outer `None` says
/// that the tag cannot be cut behind the attribute's name.
pub open spec fn attr_in(tag: Seq<char>, lower: Seq<char>, attr: Seq<char>) -> Option<
    Option<Seq<char>>,
> {
    let b = encode_utf8(tag);
    let needle = encode_utf8(attr + "="@);
    match find_from(encode_utf8(lower), needle, 0) {
        None => Some(None),
        Some(pos) => if can_cut(b, pos + needle.len(), b.len() as int) {
            Some(quoted(cut(b, pos + needle.len(), b.len() as int)))
        } else {
            None
        },
    }
}

/// The value of an attribute of a tag.
pub open spec fn attribute(tag: Seq<char>, attr: Seq<char>) -> Option<Option<Seq<char>>> {
    attr_in(tag, lowercase(tag), attr)
}

fn quoted_of(s: &str) -> (r: Option<String>)
    ensures
        r.deep_view() == quoted(s@),
{
    let c = chars_of(s);
    if c.len() == 0 || (c[0] != '"' && c[0] != '\'') {
        return None;
    }
    let rest = copy_range(c.as_slice(), 1, c.len());
    assert(rest@ == s@.skip(1));
    let raw = until_of(rest.as_slice(), c[0]);
    let raw_text = string_of(raw.as_slice());
    let value = trim_str(raw_text.as_str());
    if value.as_str().is_empty() {
        None
    } else {
        Some(value)
    }
}

/// The value of an attribute, given the tag in lowercase. The outer `None` says
/// that the tag cannot be cut behind the attribute's name.
pub fn attr_value_in(tag: &str, lower: &str, attr: &str) -> (r: Option<Option<String>>)
    ensures
        r.deep_view() == attr_in(tag@, lower@, attr@),
{
    let mut needle = String::new();
    needle.append(attr);
    needle.append("=");
    assert(needle@ == attr@ + "="@);
    match str_index_from(lower, needle.as_str(), 0) {
        None => Some(None),
        Some(pos) => {
            let at: usize = pos + byte_len(needle.as_str());
            let n: usize = byte_len(tag);
            if at > n || !tag.is_char_boundary(at) {
                return None;
            }
            proof {
                lemma_decode_of(tag@);
                vstd::utf8::is_char_boundary_start_end_of_seq(encode_utf8(tag@));
            }
            let rest = slice_str(tag, at, n);
            Some(quoted_of(rest))
        },
    }
}

fn attribute_of(tag: &str, attr: &str) -> (r: Option<Option<String>>)
    ensures
        r.deep_view() == attribute(tag@, attr@),
{
    let lower = tag.to_lowercase();
    attr_value_in(tag, lower.as_str(), attr)
}

/// The value of an attribute of a tag. The tag can be cut behind the
/// attribute's name.
pub fn attr_value(tag: &str, attr: &str) -> (r: Option<String>)
    requires
        attribute(tag@, attr@) is Some,
    ensures
        Some(r.deep_view()) == attribute(tag@, attr@),
{
    attribute_of(tag, attr).unwrap()
}

/// The value of an attribute of a tag. The outer `None` says that the tag
/// cannot be cut behind the attribute's name.
pub fn try_attr_value(tag: &str, attr: &str) -> (r: Option<Option<String>>)
    ensures
        r.deep_view() == attribute(tag@, attr@),
{
    match attribute_of(tag, attr) {
        Some(_) => Some(attr_value(tag, attr)),
        None => None,
    }
}

// ---------------------------------------------------------------------------
// Looking through tags
// ---------------------------------------------------------------------------

/// What is looked for in the tags of a page.
#[derive(Clone, Copy)]
pub enum Wanted<'a> {
    /// The target of a link with a relation to the page.
    LinkRel(&'a str),
    /// The content of a property of the page.
    MetaProperty(&'a str),
    /// A link to somewhere else than Google.
    ExternalHref,
}

/// The keys of the query parameters in which Google passes targets on.
pub open spec fn target_keys() -> Seq<Seq<char>> {
    seq!["url"@, "q"@]
}

/// The page outside of Google that a link leads to.
pub open spec fn external_target(href: Seq<char>) -> Option<Seq<char>> {
    let link = decoded(href);
    let target = match url_parameter(link, target_keys()) {
        Some(u) => u,
        None => link,
    };
    if is_http(target) && !any_occurs(lowercase(target), google_marks()) {
        Some(target)
    } else {
        None
    }
}

/// Whether one of the words of a text is the given one, whatever the case.
pub open spec fn has_word(text: Seq<char>, word: Seq<char>) -> bool {
    exists|i: int| 0 <= i < words(text).len() && same_ignoring_case(#[trigger] words(text)[i], word)
}

impl<'a> Wanted<'a> {
    /// What the start tags that are looked at begin with.
    pub open spec fn mark(self) -> Seq<char> {
        match self {
            Wanted::LinkRel(_) => "<link"@,
            Wanted::MetaProperty(_) => "<meta"@,
            Wanted::ExternalHref => "<a"@,
        }
    }

    /// What is found in a tag. The outer `None` says that the tag cannot be cut
    /// behind an attribute's name.
    pub open spec fn found_in(self, tag: Seq<char>) -> Option<Option<Seq<char>>> {
        match self {
            Wanted::LinkRel(rel) => match attribute(tag, "rel"@) {
                None => None,
                Some(Some(value)) if has_word(value, rel@) => attribute(tag, "href"@),
                Some(_) => Some(None),
            },
            Wanted::MetaProperty(name) => {
                let property = match attribute(tag, "property"@) {
                    Some(None) => attribute(tag, "name"@),
                    other => other,
                };
                match property {
                    None => None,
                    Some(Some(value)) if same_ignoring_case(value, name@) => attribute(
                        tag,
                        "content"@,
                    ),
                    Some(_) => Some(None),
                }
            },
            Wanted::ExternalHref => match attribute(tag, "href"@) {
                None => None,
                Some(None) => Some(None),
                Some(Some(href)) => Some(external_target(href)),
            },
        }
    }

    /// What is found first in the tags of a page, from a position in the
    /// lowercase page on. The outer `None` says that a tag cannot be cut.
    pub open spec fn found_from(self, html: Seq<u8>, lower: Seq<u8>, from: int) -> Option<
        Option<Seq<char>>,
    >
        decreases lower.len() - from,
    {
        if from < 0 {
            None
        } else {
            match find_from(lower, encode_utf8(self.mark()), from) {
                None => Some(None),
                Some(start) => match find_from(lower, seq![0x3eu8], start) {
                    None => Some(None),
                    Some(gt) => {
                        proof {
                            lemma_find_from(lower, encode_utf8(self.mark()), from);
                            lemma_find_from(lower, seq![0x3eu8], start);
                        }
                        if !can_cut(html, start, gt + 1) {
                            None
                        } else {
                            match self.found_in(cut(html, start, gt + 1)) {
                                None => None,
                                Some(Some(value)) => Some(Some(value)),
                                Some(None) => self.found_from(html, lower, gt + 1),
                            }
                        }
                    },
                },
            }
        }
    }

    /// What is found first in a page.
    pub open spec fn found(self, html: Seq<char>, lower: Seq<char>) -> Option<Option<Seq<char>>> {
        self.found_from(encode_utf8(html), encode_utf8(lower), 0)
    }

    fn mark_of(self) -> (r: &'static str)
        ensures
            r@ == self.mark(),
    {
        match self {
            Wanted::LinkRel(_) => "<link",
            Wanted::MetaProperty(_) => "<meta",
            Wanted::ExternalHref => "<a",
        }
    }

    fn look_at(self, tag: &str) -> (r: Option<Option<String>>)
        ensures
            r.deep_view() == self.found_in(tag@),
    {
        match self {
            Wanted::LinkRel(rel) => {
                let value = match attribute_of(tag, "rel") {
                    None => {
                        return None;
                    },
                    Some(None) => {
                        return Some(None);
                    },
                    Some(Some(value)) => value,
                };
                if word_is_in(value.as_str(), rel) {
                    attribute_of(tag, "href")
                } else {
                    Some(None)
                }
            },
            Wanted::MetaProperty(name) => {
                let property = match attribute_of(tag, "property") {
                    Some(None) => attribute_of(tag, "name"),
                    other => other,
                };
                let value = match property {
                    None => {
                        return None;
                    },
                    Some(None) => {
                        return Some(None);
                    },
                    Some(Some(value)) => value,
                };
                let c = chars_of(value.as_str());
                if equal_ignoring_case(c.as_slice(), name) {
                    attribute_of(tag, "content")
                } else {
                    Some(None)
                }
            },
            Wanted::ExternalHref => match attribute_of(tag, "href") {
                None => None,
                Some(None) => Some(None),
                Some(Some(href)) => Some(external_target_of(href.as_str())),
            },
        }
    }

    /// What is found first in a page, given the page in lowercase. The outer
    /// `None` says that a tag cannot be cut.
    pub fn look_through(self, html: &str, lower: &str) -> (r: Option<Option<String>>)
        ensures
            r.deep_view() == self.found(html@, lower@),
    {
        let mark = self.mark_of();
        let gt_mark = vec![0x3eu8];
        let ghost h = encode_utf8(html@);
        let ghost l = encode_utf8(lower@);
        let mut offset: usize = 0;
        proof {
            assert(gt_mark@ == seq![0x3eu8]);
        }
        loop
            invariant
                h == encode_utf8(html@),
                l == encode_utf8(lower@),
                mark@ == self.mark(),
                gt_mark@ == seq![0x3eu8],
                offset <= l.len(),
                self.found(html@, lower@) == self.found_from(h, l, offset as int),
            decreases l.len() - offset,
        {
            let start: usize = match str_index_from(lower, mark, offset) {
                Some(i) => i,
                None => {
                    return Some(None);
                },
            };
            let gt: usize = match byte_index_from(lower.as_bytes(), gt_mark.as_slice(), start) {
                Some(i) => i,
                None => {
                    return Some(None);
                },
            };
            let end: usize = gt + 1;
            if end > byte_len(html) || !html.is_char_boundary(start) || !html.is_char_boundary(end) {
                return None;
            }
            let tag = slice_str(html, start, end);
            match self.look_at(tag) {
                None => {
                    return None;
                },
                Some(Some(value)) => {
                    return Some(Some(value));
                },
                Some(None) => {},
            }
            offset = end;
        }
    }
}

fn word_is_in(text: &str, word: &str) -> (r: bool)
    ensures
        r == has_word(text@, word@),
{
    let c = chars_of(text);
    let ws = words_of(c.as_slice());
    let ghost all = ws.deep_view();
    let n: usize = ws.len();
    let mut i: usize = 0;
    while i < n
        invariant
            0 <= i <= n,
            n == ws@.len(),
            all == ws.deep_view(),
            all == words(text@),
            forall|j: int| 0 <= j < i ==> !same_ignoring_case(#[trigger] words(text@)[j], word@),
        decreases n - i,
    {
        assert(all[i as int] == ws@[i as int]@);
        if equal_ignoring_case(ws[i].as_slice(), word) {
            return true;
        }
        i += 1;
    }
    false
}

fn external_target_of(href: &str) -> (r: Option<String>)
    ensures
        r.deep_view() == external_target(href@),
{
    let link = decode_entities(href);
    let key_list = vec!["url", "q"];
    let keys = key_list.as_slice();
    assert(keys.deep_view() =~= target_keys());
    let target = match decode_url_parameter(link.as_str(), keys) {
        Some(u) => u,
        None => link,
    };
    if has_http_scheme(target.as_str()) && !looks_like_google_url(target.as_str()) {
        Some(target)
    } else {
        None
    }
}

/// The target of the first link of a page with a relation. The tags up to it
/// can be cut.
pub fn link_rel_value(html: &str, rel_name: &str) -> (r: Option<String>)
    requires
        Wanted::LinkRel(rel_name).found(html@, lowercase(html@)) is Some,
    ensures
        Some(r.deep_view()) == Wanted::LinkRel(rel_name).found(html@, lowercase(html@)),
{
    let lower = html.to_lowercase();
    Wanted::LinkRel(rel_name).look_through(html, lower.as_str()).unwrap()
}

/// The target of the first link of a page with a relation. The outer `None`
/// says that a tag cannot be cut.
pub fn try_link_rel_value(html: &str, rel_name: &str) -> (r: Option<Option<String>>)
    ensures
        r.deep_view() == Wanted::LinkRel(rel_name).found(html@, lowercase(html@)),
{
    let lower = html.to_lowercase();
    match Wanted::LinkRel(rel_name).look_through(html, lower.as_str()) {
        Some(_) => Some(link_rel_value(html, rel_name)),
        None => None,
    }
}

/// The content of the first property of a page with a name. The tags up to it
/// can be cut.
pub fn meta_property_value(html: &str, prop_name: &str) -> (r: Option<String>)
    requires
        Wanted::MetaProperty(prop_name).found(html@, lowercase(html@)) is Some,
    ensures
        Some(r.deep_view()) == Wanted::MetaProperty(prop_name).found(html@, lowercase(html@)),
{
    let lower = html.to_lowercase();
    Wanted::MetaProperty(prop_name).look_through(html, lower.as_str()).unwrap()
}

/// The content of the first property of a page with a name. The outer `None`
/// says that a tag cannot be cut.
pub fn try_meta_property_value(html: &str, prop_name: &str) -> (r: Option<Option<String>>)
    ensures
        r.deep_view() == Wanted::MetaProperty(prop_name).found(html@, lowercase(html@)),
{
    let lower = html.to_lowercase();
    match Wanted::MetaProperty(prop_name).look_through(html, lower.as_str()) {
        Some(_) => Some(meta_property_value(html, prop_name)),
        None => None,
    }
}

/// The first page outside of Google that a page links to. The tags up to the
/// link can be cut.
pub fn external_href_from_google_html(html: &str) -> (r: Option<String>)
    requires
        Wanted::ExternalHref.found(html@, lowercase(html@)) is Some,
    ensures
        Some(r.deep_view()) == Wanted::ExternalHref.found(html@, lowercase(html@)),
{
    let lower = html.to_lowercase();
    Wanted::ExternalHref.look_through(html, lower.as_str()).unwrap()
}

/// The first page outside of Google that a page links to. The outer `None` says
/// that a tag cannot be cut.
pub fn try_external_href_from_google_html(html: &str) -> (r: Option<Option<String>>)
    ensures
        r.deep_view() == Wanted::ExternalHref.found(html@, lowercase(html@)),
{
    let lower = html.to_lowercase();
    match Wanted::ExternalHref.look_through(html, lower.as_str()) {
        Some(_) => Some(external_href_from_google_html(html)),
        None => None,
    }
}

// ---------------------------------------------------------------------------
// Where an article is
// ---------------------------------------------------------------------------

/// The address that a page gives for itself. The outer `None` says that a tag
/// cannot be cut.
pub open spec fn canonical(html: Seq<char>) -> Option<Option<Seq<char>>> {
    let lower = lowercase(html);
    let given = match Wanted::LinkRel("canonical").found(html, lower) {
        Some(None) => Wanted::MetaProperty("og:url").found(html, lower),
        other => other,
    };
    match given {
        Some(Some(url)) => if is_http(url) {
            given
        } else {
            Some(None)
        },
        other => other,
    }
}

/// Whether a URL leads to one of Google's own pages.
pub open spec fn is_google(url: Seq<char>) -> bool {
    any_occurs(lowercase(url), google_marks())
}

/// Whether a URL leads to a page whose content changes.
pub open spec fn is_rolling(url: Seq<char>) -> bool {
    any_occurs(lowercase(url), rolling_marks())
}

/// The link to an article and the note on it: pages with changing content get
/// one, and it says whether the text is still about the headline.
pub open spec fn described(
    feed_url: Seq<char>,
    link: Seq<char>,
    article_text: Seq<char>,
    title: Seq<char>,
) -> (Seq<char>, Option<Seq<char>>) {
    let note = if !is_rolling(feed_url) && !is_rolling(link) {
        None
    } else if is_about(article_text, title) {
        Some("rolling source link"@)
    } else {
        Some("rolling source link may no longer show this item"@)
    };
    (
        if trimmed(link).len() == 0 {
            feed_url
        } else {
            link
        },
        note,
    )
}

/// The link to an article and the note on it; `None` where a tag cannot be cut.
pub open spec fn resolved(
    feed_url: Seq<char>,
    html: Seq<char>,
    article_text: Seq<char>,
    title: Seq<char>,
) -> Option<(Seq<char>, Option<Seq<char>>)> {
    match canonical(html) {
        None => None,
        Some(own) => {
            let first = match own {
                Some(url) => url,
                None => feed_url,
            };
            let elsewhere = if is_google(first) || is_google(feed_url) {
                Wanted::ExternalHref.found(html, lowercase(html))
            } else {
                Some(None)
            };
            match elsewhere {
                None => None,
                Some(Some(link)) => Some(described(feed_url, link, article_text, title)),
                Some(None) => Some(described(feed_url, first, article_text, title)),
            }
        },
    }
}

/// The link to an article and the note on it, given the link that was found.
pub fn describe_link(feed_url: &str, link: String, article_text: &str, title: &str) -> (r: (
    String,
    Option<String>,
))
    ensures
        r.deep_view() == described(feed_url@, link@, article_text@, title@),
{
    let rolling = looks_like_rolling_url(feed_url) || looks_like_rolling_url(link.as_str());
    let note = if !rolling {
        None
    } else if text_matches_title(article_text, title) {
        Some("rolling source link".to_owned())
    } else {
        Some("rolling source link may no longer show this item".to_owned())
    };
    if is_blank(link.as_str()) {
        (feed_url.to_owned(), note)
    } else {
        (link, note)
    }
}

fn resolve_checked(feed_url: &str, html: &str, article_text: &str, title: &str) -> (r: Option<
    (String, Option<String>),
>)
    ensures
        r.deep_view() == resolved(feed_url@, html@, article_text@, title@),
{
    let lower = html.to_lowercase();
    let given = match Wanted::LinkRel("canonical").look_through(html, lower.as_str()) {
        None => {
            return None;
        },
        Some(Some(url)) => Some(url),
        Some(None) => match Wanted::MetaProperty("og:url").look_through(html, lower.as_str()) {
            None => {
                return None;
            },
            Some(found) => found,
        },
    };
    let first = match given {
        Some(url) => if has_http_scheme(url.as_str()) {
            url
        } else {
            feed_url.to_owned()
        },
        None => feed_url.to_owned(),
    };
    let mut link = first;
    if looks_like_google_url(link.as_str()) || looks_like_google_url(feed_url) {
        match Wanted::ExternalHref.look_through(html, lower.as_str()) {
            None => {
                return None;
            },
            Some(Some(external)) => {
                link = external;
            },
            Some(None) => {},
        }
    }
    Some(describe_link(feed_url, link, article_text, title))
}

/// The link to an article and the note on it, given the link in the feed, the
/// page behind it, its text and the headline. The tags of the page can be cut.
pub fn resolve_article_link(feed_url: &str, html: &str, article_text: &str, title: &str) -> (r: (
    Option<String>,
    Option<String>,
))
    requires
        resolved(feed_url@, html@, article_text@, title@) is Some,
    ensures
        r.0 is Some,
        Some((r.0->0@, r.1.deep_view())) == resolved(feed_url@, html@, article_text@, title@),
{
    let (link, note) = resolve_checked(feed_url, html, article_text, title).unwrap();
    (Some(link), note)
}

/// The link to an article and the note on it; `None` where a tag of the page
/// cannot be cut.
pub fn try_resolve_article_link(
    feed_url: &str,
    html: &str,
    article_text: &str,
    title: &str,
) -> (r: Option<(Option<String>, Option<String>)>)
    ensures
        match r {
            Some(l) => l.0 is Some && resolved(feed_url@, html@, article_text@, title@) == Some(
                (l.0->0@, l.1.deep_view()),
            ),
            None => resolved(feed_url@, html@, article_text@, title@) is None,
        },
{
    match resolve_checked(feed_url, html, article_text, title) {
        Some(_) => Some(resolve_article_link(feed_url, html, article_text, title)),
        None => None,
    }
}

/// What was learnt from the page behind an item's link.
pub struct ArticleFetch {
    /// The text of the article.
    pub text: String,
    /// Where the article is.
    pub resolved_link: Option<String>,
    /// What is to be said of the link.
    pub link_note: Option<String>,
}

/// What a page says to an item with the given link and headline: its text, the
/// link and the note on it. `None` where the page has no text, or cannot be cut
/// where its tags are.
pub open spec fn article_read(feed_url: Seq<char>, html: Seq<char>, title: Seq<char>) -> Option<
    (Seq<char>, Seq<char>, Option<Seq<char>>),
> {
    match article_body(html) {
        None => None,
        Some(body) => {
            let text = trimmed(body);
            if text.len() == 0 {
                None
            } else {
                match resolved(feed_url, html, text, title) {
                    Some((link, note)) => Some((text, link, note)),
                    None => None,
                }
            }
        },
    }
}

/// Reads the article in a page that was fetched for an item.
pub fn read_article(feed_url: &str, html: &str, title: &str) -> (r: Option<ArticleFetch>)
    ensures
        match r {
            Some(a) => a.resolved_link is Some && article_read(feed_url@, html@, title@) == Some(
                (a.text@, a.resolved_link->0@, a.link_note.deep_view()),
            ),
            None => article_read(feed_url@, html@, title@) is None,
        },
{
    let body = match article_body_checked(html) {
        Some(b) => b,
        None => {
            return None;
        },
    };
    let text = trim_str(body.as_str());
    if text.as_str().is_empty() {
        return None;
    }
    match resolve_checked(feed_url, html, text.as_str(), title) {
        Some((link, note)) => Some(
            ArticleFetch { text, resolved_link: Some(link), link_note: note },
        ),
        None => None,
    }
}

// ---------------------------------------------------------------------------
// Laws
// ---------------------------------------------------------------------------

/// Whether the characters of two texts stand at the same byte positions.
pub open spec fn in_step(h: Seq<u8>, l: Seq<u8>) -> bool {
    &&& h.len() == l.len()
    &&& forall|i: int|
        0 <= i < h.len() ==> is_continuation_byte(#[trigger] h[i]) == is_continuation_byte(l[i])
}

proof fn lemma_same_boundary(h: Seq<u8>, l: Seq<u8>, i: int)
    requires
        valid_utf8(h),
        valid_utf8(l),
        in_step(h, l),
        0 <= i <= h.len(),
    ensures
        is_char_boundary(h, i) == is_char_boundary(l, i),
{
    if i < h.len() {
        is_char_boundary_iff_not_is_continuation_byte(h, i);
        is_char_boundary_iff_not_is_continuation_byte(l, i);
        assert(is_continuation_byte(h[i]) == is_continuation_byte(l[i]));
    } else {
        is_char_boundary_start_end_of_seq(h);
        is_char_boundary_start_end_of_seq(l);
    }
}

/// Where a mark stands in a page, the page can be cut before it if it begins with an
/// ASCII character, and behind it if it ends with one.
proof fn lemma_mark_boundaries(l: Seq<u8>, mark: Seq<u8>, from: int)
    requires
        valid_utf8(l),
        mark.len() > 0,
        from >= 0,
    ensures
        find_from(l, mark, from) matches Some(i) ==> from <= i && i + mark.len() <= l.len() && (
        mark[0] < 0x80 ==> is_char_boundary(l, i)) && (mark.last() < 0x80 ==> is_char_boundary(
            l,
            i + mark.len(),
        )),
{
    lemma_find_from(l, mark, from);
    if let Some(i) = find_from(l, mark, from) {
        assert(l.subrange(i, i + mark.len())[0] == l[i]);
        assert(l.subrange(i, i + mark.len())[mark.len() - 1] == l[i + mark.len() - 1]);
        if mark[0] < 0x80 {
            lemma_boundary_at_ascii(l, i);
        }
        if mark.last() < 0x80 {
            lemma_boundary_at_ascii(l, i + mark.len() - 1);
        }
    }
}

proof fn lemma_blocks_in_step(h: Seq<u8>, l: Seq<u8>, open: Seq<u8>, close: Seq<u8>, from: int)
    requires
        valid_utf8(h),
        valid_utf8(l),
        in_step(h, l),
        open.len() > 0,
        open[0] == 0x3c,
        close.len() > 1,
        close[0] == 0x3c,
        close.last() == 0x3e,
        0 <= from <= l.len(),
        is_char_boundary(l, from),
    ensures
        blocks_from(h, l, open, close, from) is Some,
    decreases l.len() - from,
{
    lemma_mark_boundaries(l, open, from);
    if let Some(start) = find_from(l, open, from) {
        lemma_same_boundary(h, l, start);
        lemma_mark_boundaries(h, seq![0x3eu8], start);
        if let Some(gt) = find_from(h, seq![0x3eu8], start) {
            lemma_same_boundary(h, l, gt + 1);
            lemma_mark_boundaries(l, close, gt + 1);
            if let Some(end) = find_from(l, close, gt + 1) {
                lemma_same_boundary(h, l, end);
                lemma_blocks_in_step(h, l, open, close, end + close.len());
            }
        }
    }
}

proof fn lemma_removed_in_step(h: Seq<u8>, l: Seq<u8>, open: Seq<u8>, close: Seq<u8>)
    requires
        valid_utf8(h),
        valid_utf8(l),
        in_step(h, l),
        open.len() > 0,
        open[0] == 0x3c,
        close.len() > 1,
        close[0] == 0x3c,
        close.last() == 0x3e,
    ensures
        removed(h, l, open, close) is Some,
    decreases l.len(),
{
    lemma_mark_boundaries(l, open, 0);
    if let Some(start) = find_from(l, open, 0) {
        lemma_mark_boundaries(l, close, start + 1);
        if let Some(at) = find_from(l, close, start + 1) {
            let end = at + close.len();
            let n = l.len() as int;
            lemma_same_boundary(h, l, start);
            lemma_same_boundary(h, l, end);
            is_char_boundary_start_end_of_seq(h);
            valid_utf8_split(h, start);
            valid_utf8_split(h, end);
            valid_utf8_split(l, start);
            valid_utf8_split(l, end);
            let h2 = h.subrange(0, start) + h.subrange(end, n);
            let l2 = l.subrange(0, start) + l.subrange(end, n);
            valid_utf8_concat(h.subrange(0, start), h.subrange(end, n));
            valid_utf8_concat(l.subrange(0, start), l.subrange(end, n));
            assert forall|i: int| 0 <= i < h2.len() implies is_continuation_byte(#[trigger] h2[i])
                == is_continuation_byte(l2[i]) by {
                let k = if i < start {
                    i
                } else {
                    i - start + end
                };
                assert(h2[i] == h[k]);
                assert(l2[i] == l[k]);
            }
            lemma_removed_in_step(h2, l2, open, close);
        }
    }
}

/// Once the elements with a name are removed from a page that is in lowercase, no start
/// mark of theirs has an end mark behind it.
pub proof fn law_no_element_remains(page: Seq<u8>, open: Seq<u8>, close: Seq<u8>)
    ensures
        removed(page, page, open, close) matches Some(rest) ==> forall|i: int, j: int|
            !(#[trigger] occurs_at(rest, open, i) && i < j && #[trigger] occurs_at(rest, close, j)),
    decreases page.len(),
{
    lemma_find_from(page, open, 0);
    if let Some(start) = find_from(page, open, 0) {
        lemma_find_from(page, close, start + 1);
        if let Some(at) = find_from(page, close, start + 1) {
            let end = at + close.len();
            law_no_element_remains(
                page.subrange(0, start) + page.subrange(end, page.len() as int),
                open,
                close,
            );
        }
    }
}

/// A page whose lowercase spelling has its characters where the page itself has
/// them can always be cut where its tags are: its elements are found and can be
/// removed, and the attributes of its tags can be read.
pub proof fn law_pages_in_step_can_be_cut(html: Seq<char>, lower: Seq<char>, name: Seq<char>)
    requires
        in_step(encode_utf8(html), encode_utf8(lower)),
    ensures
        blocks(html, lower, name) is Some,
        without(html, lower, name) is Some,
        attr_in(html, lower, name) is Some,
{
    let h = encode_utf8(html);
    let l = encode_utf8(lower);
    lemma_decode_of(html);
    lemma_decode_of(lower);
    lemma_marks(name);
    is_char_boundary_start_end_of_seq(l);
    is_char_boundary_start_end_of_seq(h);
    lemma_blocks_in_step(h, l, encode_utf8(start_mark(name)), encode_utf8(end_mark(name)), 0);
    lemma_removed_in_step(h, l, encode_utf8(start_mark(name)), encode_utf8(end_mark(name)));
    reveal_strlit("=");
    vstd::utf8::is_ascii_chars_encode_utf8("="@);
    lemma_encode_concat(name, "="@);
    let needle = encode_utf8(name + "="@);
    assert(needle.last() == 0x3d);
    lemma_mark_boundaries(l, needle, 0);
    if let Some(pos) = find_from(l, needle, 0) {
        lemma_same_boundary(h, l, pos + needle.len());
    }
}

/// Whether an element with a name stands in a page.
pub open spec fn has_element(page: Seq<char>, name: Seq<char>, b: (Seq<char>, Seq<char>)) -> bool {
    blocks(page, lowercase(page), name) matches Some(bs) && bs.contains(b)
}

/// Whether an article can stand in an element of a page.
pub open spec fn is_container(page: Seq<char>, b: (Seq<char>, Seq<char>)) -> bool {
    ||| has_element(page, "article"@, b)
    ||| has_element(page, "main"@, b)
    ||| has_element(page, "section"@, b)
    ||| has_element(page, "div"@, b)
}

/// How long the text of an element is, in bytes.
pub open spec fn text_size(b: (Seq<char>, Seq<char>)) -> nat {
    encode_utf8(trimmed(stripped(b.1))).len()
}

/// How much an element of a page looks like the body of an article.
pub open spec fn element_score(b: (Seq<char>, Seq<char>)) -> int {
    container_score(lowercase(b.0), words(trimmed(stripped(b.1))).len() as int)
}

/// Whether the text of an element is long enough and looks like an article.
pub open spec fn is_eligible(b: (Seq<char>, Seq<char>)) -> bool {
    text_size(b) >= 200 && element_score(b) > 0
}

/// Whether what was found is the text of an element.
spec fn is_text_of(best: Option<(int, Seq<char>)>, b: (Seq<char>, Seq<char>)) -> bool {
    is_eligible(b) && best == Some((element_score(b), trimmed(stripped(b.1))))
}

/// Whether what was found is no worse than an element.
spec fn is_no_worse(best: Option<(int, Seq<char>)>, b: (Seq<char>, Seq<char>)) -> bool {
    is_eligible(b) ==> match best {
        Some((score, text)) => score > element_score(b) || (score == element_score(b) && encode_utf8(
            text,
        ).len() >= text_size(b)),
        None => false,
    }
}

/// Whether one find is no worse than an earlier one.
spec fn is_kept(best: Option<(int, Seq<char>)>, before: Option<(int, Seq<char>)>) -> bool {
    match (best, before) {
        (_, None) => true,
        (None, Some(_)) => false,
        (Some(a), Some(b)) => a.0 > b.0 || (a.0 == b.0 && encode_utf8(a.1).len() >= encode_utf8(
            b.1,
        ).len()),
    }
}

proof fn lemma_best_of(bs: Seq<(Seq<char>, Seq<char>)>, best: Option<(int, Seq<char>)>)
    ensures
        is_kept(best_of(bs, best), best),
        forall|b: (Seq<char>, Seq<char>)| #[trigger]
            bs.contains(b) ==> is_no_worse(best_of(bs, best), b),
        best_of(bs, best) == best || exists|b: (Seq<char>, Seq<char>)| #[trigger]
            bs.contains(b) && is_text_of(best_of(bs, best), b),
    decreases bs.len(),
{
    if bs.len() > 0 {
        let next = better(best, bs[0]);
        let rest = bs.skip(1);
        let r = best_of(bs, best);
        lemma_best_of(rest, next);
        assert(is_kept(next, best));
        assert(is_no_worse(next, bs[0]));
        assert forall|b: (Seq<char>, Seq<char>)| #[trigger] bs.contains(b) implies is_no_worse(
            r,
            b,
        ) by {
            let k = choose|k: int| 0 <= k < bs.len() && bs[k] == b;
            if k > 0 {
                assert(rest[k - 1] == b);
                assert(rest.contains(b));
            }
        }
        if r != next {
            let b = choose|b: (Seq<char>, Seq<char>)| #[trigger]
                rest.contains(b) && is_text_of(r, b);
            let k = choose|k: int| 0 <= k < rest.len() && rest[k] == b;
            assert(bs[k + 1] == b);
            assert(bs.contains(b));
        } else if next != best {
            assert(bs.contains(bs[0]));
            assert(is_text_of(r, bs[0]));
        }
    }
}

/// Whether an element stands in a page under one of the names.
spec fn has_named(page: Seq<char>, names: Seq<Seq<char>>, b: (Seq<char>, Seq<char>)) -> bool {
    exists|i: int| 0 <= i < names.len() && has_element(page, #[trigger] names[i], b)
}

proof fn lemma_best_named(page: Seq<char>, names: Seq<Seq<char>>, best: Option<(int, Seq<char>)>)
    ensures
        (best_named(page, names, best) is Some) == (forall|i: int|
            0 <= i < names.len() ==> blocks(page, lowercase(page), #[trigger] names[i]) is Some),
        best_named(page, names, best) matches Some(r) ==> is_kept(r, best) && (forall|
            b: (Seq<char>, Seq<char>),
        | #[trigger]
            has_named(page, names, b) ==> is_no_worse(r, b)) && (r == best || exists|
            b: (Seq<char>, Seq<char>),
        | #[trigger]
            has_named(page, names, b) && is_text_of(r, b)),
    decreases names.len(),
{
    if names.len() > 0 {
        let rest = names.skip(1);
        assert forall|i: int| 0 <= i < rest.len() implies rest[i] == names[i + 1] by {}
        if let Some(bs) = blocks(page, lowercase(page), names[0]) {
            let next = best_of(bs, best);
            lemma_best_of(bs, best);
            lemma_best_named(page, rest, next);
            if forall|i: int|
                0 <= i < rest.len() ==> blocks(page, lowercase(page), #[trigger] rest[i]) is Some {
                assert forall|i: int| 0 <= i < names.len() implies blocks(
                    page,
                    lowercase(page),
                    #[trigger] names[i],
                ) is Some by {
                    if i > 0 {
                        assert(rest[i - 1] == names[i]);
                    }
                }
            } else {
                let i = choose|i: int|
                    0 <= i < rest.len() && blocks(page, lowercase(page), #[trigger] rest[i]) is None;
                assert(blocks(page, lowercase(page), names[i + 1]) is None);
            }
            if let Some(r) = best_named(page, names, best) {
                assert forall|b: (Seq<char>, Seq<char>)| #[trigger]
                    has_named(page, names, b) implies is_no_worse(r, b) by {
                    let i = choose|i: int|
                        0 <= i < names.len() && has_element(page, #[trigger] names[i], b);
                    if i == 0 {
                        assert(bs.contains(b));
                        assert(is_no_worse(next, b));
                    } else {
                        assert(rest[i - 1] == names[i]);
                        assert(has_named(page, rest, b));
                    }
                }
                if r != next {
                    let b = choose|b: (Seq<char>, Seq<char>)| #[trigger]
                        has_named(page, rest, b) && is_text_of(r, b);
                    let i = choose|i: int|
                        0 <= i < rest.len() && has_element(page, #[trigger] rest[i], b);
                    assert(names[i + 1] == rest[i]);
                    assert(has_named(page, names, b));
                } else if next != best {
                    let b = choose|b: (Seq<char>, Seq<char>)| #[trigger]
                        bs.contains(b) && is_text_of(r, b);
                    assert(has_element(page, names[0], b));
                    assert(has_named(page, names, b));
                }
            }
        }
    }
}

/// The text that is extracted from a page is that of an article, main, section or div element
/// of the page without its scripts, styles and chrome: of one with at least 200 bytes of text
/// and a positive score that no other such element exceeds, and of elements with equal scores
/// none has a longer text. Only where there is no such element it is all of the text. A text
/// is extracted wherever the elements can be cut out.
pub proof fn law_best_container_is_extracted(html: Seq<char>)
    ensures
        match without_all(
            html,
            seq!["script"@, "style"@, "nav"@, "header"@, "footer"@, "aside"@, "noscript"@],
        ) {
            None => article_body(html) is None,
            Some(page) => {
                &&& article_body(html) is Some <==> (blocks(page, lowercase(page), "article"@) is Some
                    && blocks(page, lowercase(page), "main"@) is Some && blocks(
                    page,
                    lowercase(page),
                    "section"@,
                ) is Some && blocks(page, lowercase(page), "div"@) is Some)
                &&& article_body(html) matches Some(text) ==> {
                    ||| exists|b: (Seq<char>, Seq<char>)| #[trigger]
                        is_container(page, b) && is_eligible(b) && text == trimmed(stripped(b.1)) && (
                        forall|c: (Seq<char>, Seq<char>)| #[trigger]
                            is_container(page, c) && is_eligible(c) ==> element_score(c)
                                < element_score(b) || (element_score(c) == element_score(b)
                                && text_size(c) <= text_size(b)))
                    ||| text == stripped(page) && forall|c: (Seq<char>, Seq<char>)| #[trigger]
                        is_container(page, c) ==> !is_eligible(c)
                }
            },
        },
{
    let chrome = seq![
        "script"@,
        "style"@,
        "nav"@,
        "header"@,
        "footer"@,
        "aside"@,
        "noscript"@,
    ];
    let names = container_names();
    assert(chrome =~= chrome_names());
    assert(names.len() == 4 && names[0] == "article"@ && names[1] == "main"@ && names[2]
        == "section"@ && names[3] == "div"@);
    if let Some(page) = without_all(html, chrome) {
        lemma_best_named(page, names, None);
        assert forall|b: (Seq<char>, Seq<char>)| #[trigger] is_container(page, b) == has_named(
            page,
            names,
            b,
        ) by {
            if has_element(page, "article"@, b) {
                assert(has_element(page, names[0], b));
            }
            if has_element(page, "main"@, b) {
                assert(has_element(page, names[1], b));
            }
            if has_element(page, "section"@, b) {
                assert(has_element(page, names[2], b));
            }
            if has_element(page, "div"@, b) {
                assert(has_element(page, names[3], b));
            }
        }
        if forall|i: int|
            0 <= i < names.len() ==> blocks(page, lowercase(page), #[trigger] names[i]) is Some {
            assert(blocks(page, lowercase(page), names[0]) is Some);
            assert(blocks(page, lowercase(page), names[1]) is Some);
            assert(blocks(page, lowercase(page), names[2]) is Some);
            assert(blocks(page, lowercase(page), names[3]) is Some);
        }
        if let Some(r) = best_named(page, names, None) {
            if let Some(found) = r {
                let b = choose|b: (Seq<char>, Seq<char>)| #[trigger]
                    has_named(page, names, b) && is_text_of(r, b);
                assert(is_container(page, b));
                assert forall|c: (Seq<char>, Seq<char>)| #[trigger]
                    is_container(page, c) && is_eligible(c) implies element_score(c)
                    < element_score(b) || (element_score(c) == element_score(b) && text_size(c)
                    <= text_size(b)) by {
                    assert(has_named(page, names, c));
                    assert(is_no_worse(r, c));
                }
            } else {
                assert forall|c: (Seq<char>, Seq<char>)| #[trigger]
                    is_container(page, c) implies !is_eligible(c) by {
                    assert(has_named(page, names, c));
                    assert(is_no_worse(r, c));
                }
            }
        }
    }
}

/// Elements score by their start tags: four for each mark of an article in it, five less for
/// each mark of what stands around one, and one more for every eighty words, up to eight.
pub proof fn law_marks_and_words_score(tag: Seq<char>, n: int)
    requires
        0 <= n < 0x8000_0000,
    ensures
        container_score(tag, n) == 4 * seq![
            "article"@,
            "articlebody"@,
            "story"@,
            "content"@,
            "main"@,
            "post"@,
            "entry"@,
            "body"@,
            "meldung"@,
            "text"@,
        ].filter(|m: Seq<char>| occurs(tag, m)).len() - 5 * seq![
            "nav"@,
            "menu"@,
            "footer"@,
            "header"@,
            "aside"@,
            "comment"@,
            "related"@,
            "teaser"@,
            "ad"@,
            "advert"@,
            "social"@,
        ].filter(|m: Seq<char>| occurs(tag, m)).len() + (if n < 640 {
            n / 80
        } else {
            8
        }),
{
    law_hits_are_counted(article_marks(), tag);
    law_hits_are_counted(chrome_marks(), tag);
}

/// Whether an element stands in a page: its start tag begins at `start` and ends at `gt`, and
/// its end tag, the first one behind that, begins at `end`.
pub open spec fn is_element_at(
    html: Seq<u8>,
    lower: Seq<u8>,
    open: Seq<u8>,
    close: Seq<u8>,
    start: int,
    gt: int,
    end: int,
) -> bool {
    &&& occurs_at(lower, open, start)
    &&& start <= gt < html.len() && html[gt] == 0x3e
    &&& forall|j: int| start <= j < gt ==> #[trigger] html[j] != 0x3e
    &&& gt < end && occurs_at(lower, close, end)
    &&& forall|j: int| gt < j < end ==> !#[trigger] occurs_at(lower, close, j)
}

/// Whether an element is the one that stands in a page at some positions.
pub open spec fn is_cut_at(
    b: (Seq<char>, Seq<char>),
    html: Seq<u8>,
    start: int,
    gt: int,
    end: int,
) -> bool {
    b.0 == cut(html, start, gt + 1) && b.1 == cut(html, gt + 1, end)
}

proof fn lemma_gt(html: Seq<u8>, start: int)
    requires
        0 <= start,
    ensures
        match find_from(html, seq![0x3eu8], start) {
            Some(gt) => start <= gt < html.len() && html[gt] == 0x3e && forall|j: int|
                start <= j < gt ==> #[trigger] html[j] != 0x3e,
            None => forall|j: int| start <= j < html.len() ==> #[trigger] html[j] != 0x3e,
        },
{
    let mark = seq![0x3eu8];
    lemma_find_from(html, mark, start);
    assert forall|j: int| 0 <= j < html.len() && #[trigger] html[j] == 0x3e implies occurs_at(
        html,
        mark,
        j,
    ) by {
        assert(html.subrange(j, j + 1) == mark);
    }
    if let Some(gt) = find_from(html, mark, start) {
        assert(html.subrange(gt, gt + 1)[0] == html[gt]);
    }
}

/// Every element that is found stands in the page, with its start tag and what is in it.
pub proof fn law_elements_are_cut_out(
    html: Seq<u8>,
    lower: Seq<u8>,
    open: Seq<u8>,
    close: Seq<u8>,
    from: int,
    k: int,
)
    requires
        0 <= from,
    ensures
        blocks_from(html, lower, open, close, from) matches Some(bs) ==> (0 <= k < bs.len() ==> exists|
            start: int,
            gt: int,
            end: int,
        |
            from <= start && #[trigger] is_element_at(html, lower, open, close, start, gt, end)
                && is_cut_at(bs[k], html, start, gt, end)),
    decreases lower.len() - from,
{
    if let Some(bs) = blocks_from(html, lower, open, close, from) {
        if 0 <= k < bs.len() {
            lemma_find_from(lower, open, from);
            let start = find_from(lower, open, from)->0;
            lemma_gt(html, start);
            let gt = find_from(html, seq![0x3eu8], start)->0;
            lemma_find_from(lower, close, gt + 1);
            let end = find_from(lower, close, gt + 1)->0;
            assert(is_element_at(html, lower, open, close, start, gt, end));
            let rest = blocks_from(html, lower, open, close, end + close.len())->0;
            if k == 0 {
                assert(is_cut_at(bs[0], html, start, gt, end));
            } else {
                assert(bs[k] == rest[k - 1]);
                law_elements_are_cut_out(html, lower, open, close, end + close.len(), k - 1);
                let (s, g, e) = choose|s: int, g: int, e: int|
                    end + close.len() <= s && #[trigger] is_element_at(
                        html,
                        lower,
                        open,
                        close,
                        s,
                        g,
                        e,
                    ) && is_cut_at(rest[k - 1], html, s, g, e);
                assert(from <= s && is_cut_at(bs[k], html, s, g, e));
            }
        }
    }
}

/// No element of a page is left out: each is found, unless it begins inside of another one with
/// the same name.
pub proof fn law_every_element_is_found(
    html: Seq<u8>,
    lower: Seq<u8>,
    open: Seq<u8>,
    close: Seq<u8>,
    from: int,
    start: int,
    gt: int,
    end: int,
)
    requires
        0 <= from <= start,
        is_element_at(html, lower, open, close, start, gt, end),
    ensures
        blocks_from(html, lower, open, close, from) matches Some(bs) ==> {
            ||| exists|k: int| 0 <= k < bs.len() && is_cut_at(#[trigger] bs[k], html, start, gt, end)
            ||| exists|s: int, g: int, e: int| #[trigger]
                is_element_at(html, lower, open, close, s, g, e) && s < start < e + close.len()
        },
    decreases lower.len() - from,
{
    if let Some(bs) = blocks_from(html, lower, open, close, from) {
        lemma_find_from(lower, open, from);
        let s = find_from(lower, open, from)->0;
        assert(find_from(lower, open, from) is Some);
        assert(s <= start);
        lemma_gt(html, s);
        assert(find_from(html, seq![0x3eu8], s) is Some);
        let g = find_from(html, seq![0x3eu8], s)->0;
        assert(g <= gt) by {
            if gt < g {
                assert(html[gt] != 0x3e);
            }
        }
        lemma_find_from(lower, close, g + 1);
        assert(find_from(lower, close, g + 1) is Some);
        let e = find_from(lower, close, g + 1)->0;
        assert(is_element_at(html, lower, open, close, s, g, e));
        let rest = blocks_from(html, lower, open, close, e + close.len())->0;
        assert(bs == seq![(cut(html, s, g + 1), cut(html, g + 1, e))] + rest);
        if start == s {
            assert(g == gt) by {
                if g < gt {
                    assert(html[g] != 0x3e);
                }
            }
            assert(e == end) by {
                if e < end {
                    assert(!occurs_at(lower, close, e));
                } else if end < e {
                    assert(!occurs_at(lower, close, end));
                }
            }
            assert(is_cut_at(bs[0], html, start, gt, end));
        } else if start >= e + close.len() {
            law_every_element_is_found(html, lower, open, close, e + close.len(), start, gt, end);
            if exists|k: int|
                0 <= k < rest.len() && is_cut_at(#[trigger] rest[k], html, start, gt, end) {
                let k = choose|k: int|
                    0 <= k < rest.len() && is_cut_at(#[trigger] rest[k], html, start, gt, end);
                assert(bs[k + 1] == rest[k]);
                assert(is_cut_at(bs[k + 1], html, start, gt, end));
            }
        }
    }
}

proof fn lemma_behind_name(before: Seq<char>, attr: Seq<char>, tail: Seq<char>)
    requires
        forall|i: int|
            0 <= i < encode_utf8(before).len() ==> !#[trigger] occurs_at(
                encode_utf8(before + (attr + "="@) + tail),
                encode_utf8(attr + "="@),
                i,
            ),
    ensures
        ({
            let b = encode_utf8(before + (attr + "="@) + tail);
            let needle = encode_utf8(attr + "="@);
            let n = encode_utf8(before).len() as int;
            &&& find_from(b, needle, 0) == Some(n)
            &&& n + needle.len() <= b.len()
            &&& can_cut(b, n + needle.len(), b.len() as int)
            &&& cut(b, n + needle.len(), b.len() as int) == tail
        }),
{
    let name = attr + "="@;
    let b = encode_utf8(before + name + tail);
    let needle = encode_utf8(name);
    let n = encode_utf8(before).len() as int;
    let m = n + needle.len();
    lemma_encode_concat(before + name, tail);
    lemma_encode_concat(before, name);
    lemma_decode_of(before + name + tail);
    lemma_decode_of(tail);
    assert(b.subrange(n, n + needle.len()) == needle);
    assert(occurs_at(b, needle, n));
    lemma_find_from(b, needle, 0);
    assert(find_from(b, needle, 0) == Some(n));
    reveal_strlit("=");
    vstd::utf8::is_ascii_chars_encode_utf8("="@);
    lemma_encode_concat(attr, "="@);
    assert(needle[needle.len() - 1] == 0x3d);
    assert(b[m - 1] == needle[needle.len() - 1]);
    lemma_boundary_at_ascii(b, m - 1);
    is_char_boundary_start_end_of_seq(b);
    assert(b.subrange(m, b.len() as int) == encode_utf8(tail));
}

proof fn lemma_up_to_quote(value: Seq<char>, quote: char, rest: Seq<char>)
    requires
        !value.contains(quote),
    ensures
        until(value + seq![quote] + rest, quote) == value,
{
    let s = value + seq![quote] + rest;
    law_until_the_first(s, quote);
    let u = until(s, quote);
    if u.len() < value.len() {
        assert(s[u.len() as int] == value[u.len() as int]);
        assert(value.contains(value[u.len() as int]));
    } else if u.len() > value.len() {
        assert(s.take(u.len() as int)[value.len() as int] == quote);
        assert(u.contains(u[value.len() as int]));
    }
    assert(s.take(value.len() as int) == value);
}

/// The value of an attribute is what stands between the quotation marks behind its first
/// occurrence, without the white space around it; a blank value is none.
pub proof fn law_attribute_values_are_read(
    before: Seq<char>,
    attr: Seq<char>,
    quote: char,
    value: Seq<char>,
    rest: Seq<char>,
)
    requires
        quote == '"' || quote == '\'',
        !value.contains(quote),
        forall|i: int|
            0 <= i < encode_utf8(before).len() ==> !#[trigger] occurs_at(
                encode_utf8(before + (attr + "="@) + (seq![quote] + value + seq![quote] + rest)),
                encode_utf8(attr + "="@),
                i,
            ),
    ensures
        ({
            let tag = before + (attr + "="@) + (seq![quote] + value + seq![quote] + rest);
            &&& trimmed(value).len() > 0 ==> attr_in(tag, tag, attr) == Some(Some(trimmed(value)))
            &&& trimmed(value).len() == 0 ==> attr_in(tag, tag, attr) == Some(None::<Seq<char>>)
        }),
{
    let name = attr + "="@;
    let tail = seq![quote] + value + seq![quote] + rest;
    let tag = before + name + tail;
    lemma_behind_name(before, attr, tail);
    lemma_decode_of(tag);
    assert(tail.skip(1) == value + seq![quote] + rest);
    lemma_up_to_quote(value, quote, rest);
}

/// What is found in the tags of a page is found in one that stands there, and nothing was found
/// in the tags before it.
pub proof fn law_the_first_tag_counts(
    wanted: Wanted,
    html: Seq<u8>,
    lower: Seq<u8>,
    from: int,
    value: Seq<char>,
)
    requires
        0 <= from,
        wanted.found_from(html, lower, from) == Some(Some(value)),
    ensures
        exists|start: int, gt: int|
            from <= start < gt && occurs_at(lower, encode_utf8(wanted.mark()), start) && lower[gt]
                == 0x3e && #[trigger] wanted.found_in(cut(html, start, gt + 1)) == Some(Some(value)),
    decreases lower.len() - from,
{
    let mark = encode_utf8(wanted.mark());
    lemma_find_from(lower, mark, from);
    let start = find_from(lower, mark, from)->0;
    lemma_gt(lower, start);
    let gt = find_from(lower, seq![0x3eu8], start)->0;
    lemma_wanted_mark(wanted);
    assert(lower.subrange(start, start + mark.len())[0] == lower[start]);
    if wanted.found_in(cut(html, start, gt + 1)) == Some(None::<Seq<char>>) {
        law_the_first_tag_counts(wanted, html, lower, gt + 1, value);
    } else {
        assert(wanted.found_in(cut(html, start, gt + 1)) == Some(Some(value)));
    }
}

proof fn lemma_wanted_mark(wanted: Wanted)
    ensures
        encode_utf8(wanted.mark()).len() > 0,
        encode_utf8(wanted.mark())[0] == 0x3c,
{
    reveal_strlit("<link");
    reveal_strlit("<meta");
    reveal_strlit("<a");
    vstd::utf8::is_ascii_chars_encode_utf8(wanted.mark());
}

/// A tag gives away a link exactly if its relation names the wanted one, a property if it has
/// the wanted name, and a link to another site unless that is one of Google's.
pub proof fn law_tags_give_what_they_name(rel: &str, tag: Seq<char>, value: Seq<char>)
    ensures
        Wanted::LinkRel(rel).found_in(tag) == Some(Some(value)) ==> attribute(tag, "href"@) == Some(
            Some(value),
        ) && (attribute(tag, "rel"@) matches Some(Some(names)) && has_word(names, rel@)),
        (attribute(tag, "rel"@) matches Some(Some(names)) && has_word(names, rel@)) ==>
            Wanted::LinkRel(rel).found_in(tag) == attribute(tag, "href"@),
        Wanted::MetaProperty(rel).found_in(tag) == Some(Some(value)) ==> attribute(
            tag,
            "content"@,
        ) == Some(Some(value)),
        (attribute(tag, "property"@) matches Some(Some(name)) && same_ignoring_case(name, rel@)) ==>
            Wanted::MetaProperty(rel).found_in(tag) == attribute(tag, "content"@),
        Wanted::ExternalHref.found_in(tag) == Some(Some(value)) ==> is_http(value) && !occurs(
            lowercase(value),
            "://news.google."@,
        ) && !occurs(lowercase(value), "://www.google."@) && !occurs(
            lowercase(value),
            "://google."@,
        ),
{
    let marks = google_marks();
    assert(marks[0] == "://news.google."@ && marks[1] == "://www.google."@ && marks[2]
        == "://google."@);
    if Wanted::ExternalHref.found_in(tag) == Some(Some(value)) {
        assert(!occurs(lowercase(value), marks[0]));
        assert(!occurs(lowercase(value), marks[1]));
        assert(!occurs(lowercase(value), marks[2]));
    }
}

/// Whether a URL leads to one of Google's own pages, by the marks of their addresses.
pub open spec fn leads_to_google(url: Seq<char>) -> bool {
    ||| occurs(lowercase(url), "://news.google."@)
    ||| occurs(lowercase(url), "://www.google."@)
    ||| occurs(lowercase(url), "://google."@)
}

/// Whether the page behind a URL keeps changing, by the marks of its address.
pub open spec fn leads_to_a_ticker(url: Seq<char>) -> bool {
    ||| occurs(lowercase(url), "ticker"@)
    ||| occurs(lowercase(url), "liveblog"@)
    ||| occurs(lowercase(url), "newsblog"@)
    ||| occurs(lowercase(url), "live-blog"@)
    ||| occurs(lowercase(url), "live-ticker"@)
}

proof fn lemma_kinds_of_pages(url: Seq<char>)
    ensures
        is_google(url) == leads_to_google(url),
        is_rolling(url) == leads_to_a_ticker(url),
{
    let lower = lowercase(url);
    let g = google_marks();
    let r = rolling_marks();
    assert(g[0] == "://news.google."@ && g[1] == "://www.google."@ && g[2] == "://google."@);
    assert(r[0] == "ticker"@ && r[1] == "liveticker"@ && r[2] == "liveblog"@ && r[3] == "newsblog"@
        && r[4] == "live-blog"@ && r[5] == "live-ticker"@);
    if leads_to_google(url) {
        assert(occurs(lower, g[0]) || occurs(lower, g[1]) || occurs(lower, g[2]));
    }
    if leads_to_a_ticker(url) {
        assert(occurs(lower, r[0]) || occurs(lower, r[2]) || occurs(lower, r[3]) || occurs(
            lower,
            r[4],
        ) || occurs(lower, r[5]));
    }
    if occurs(lower, "liveticker"@) {
        reveal_strlit("liveticker");
        reveal_strlit("live");
        reveal_strlit("ticker");
        assert("liveticker"@ == "live"@ + "ticker"@);
        lemma_added("live"@, "ticker"@);
        lemma_occurs_within(lower, "liveticker"@, "ticker"@);
    }
}

/// The link of an article is the address that its page gives for itself, or else that of the
/// feed. Where that or the one of the feed is one of Google's, it is the first page elsewhere
/// that the page links to, if there is one.
pub proof fn law_links_lead_to_the_article(
    feed_url: Seq<char>,
    html: Seq<char>,
    text: Seq<char>,
    title: Seq<char>,
)
    ensures
        resolved(feed_url, html, text, title) matches Some(r) ==> {
            let own = canonical(html)->0;
            let elsewhere = Wanted::ExternalHref.found(html, lowercase(html));
            &&& own matches Some(u) ==> !leads_to_google(u) && !leads_to_google(feed_url) && trimmed(
                u,
            ).len() > 0 ==> r.0 == u
            &&& own is None && !leads_to_google(feed_url) ==> r.0 == feed_url
            &&& leads_to_google(feed_url) ==> (elsewhere matches Some(Some(u)) ==> trimmed(u).len()
                > 0 ==> r.0 == u)
            &&& own matches Some(u) ==> leads_to_google(u) ==> (elsewhere matches Some(Some(x)) ==>
                trimmed(x).len() > 0 ==> r.0 == x)
            &&& elsewhere == Some(None::<Seq<char>>) ==> (own matches Some(u) ==> trimmed(u).len()
                > 0 ==> r.0 == u)
            &&& elsewhere == Some(None::<Seq<char>>) && own is None ==> r.0 == feed_url
        },
        resolved(feed_url, html, text, title) is None ==> canonical(html) is None
            || Wanted::ExternalHref.found(html, lowercase(html)) is None,
{
    lemma_kinds_of_pages(feed_url);
    if let Some(Some(u)) = canonical(html) {
        lemma_kinds_of_pages(u);
    }
}

/// A link gets a note exactly if it, or the one of the feed, leads to a page that keeps
/// changing; the note tells whether the text there is still about the headline.
pub proof fn law_changing_pages_get_a_note(
    feed_url: Seq<char>,
    link: Seq<char>,
    text: Seq<char>,
    title: Seq<char>,
)
    ensures
        described(feed_url, link, text, title).1 is None <==> !leads_to_a_ticker(feed_url)
            && !leads_to_a_ticker(link),
        (leads_to_a_ticker(feed_url) || leads_to_a_ticker(link)) && is_about(text, title) ==>
            described(feed_url, link, text, title).1 == Some("rolling source link"@),
        (leads_to_a_ticker(feed_url) || leads_to_a_ticker(link)) && !is_about(text, title) ==>
            described(feed_url, link, text, title).1 == Some(
            "rolling source link may no longer show this item"@,
        ),
        trimmed(link).len() > 0 ==> described(feed_url, link, text, title).0 == link,
        trimmed(link).len() == 0 ==> described(feed_url, link, text, title).0 == feed_url,
{
    lemma_kinds_of_pages(feed_url);
    lemma_kinds_of_pages(link);
}

/// The address that a page gives for itself is that of its canonical link, or else the one that
/// it is shared by, and a web page in any case.
pub proof fn law_pages_name_themselves(html: Seq<char>, url: Seq<char>)
    ensures
        canonical(html) == Some(Some(url)) ==> is_http(url) && {
            ||| Wanted::LinkRel("canonical").found(html, lowercase(html)) == Some(Some(url))
            ||| Wanted::LinkRel("canonical").found(html, lowercase(html)) == Some(
                None::<Seq<char>>,
            ) && Wanted::MetaProperty("og:url").found(html, lowercase(html)) == Some(Some(url))
        },
        Wanted::LinkRel("canonical").found(html, lowercase(html)) == Some(Some(url)) && is_http(url)
            ==> canonical(html) == Some(Some(url)),
        Wanted::LinkRel("canonical").found(html, lowercase(html)) == Some(None::<Seq<char>>)
            && Wanted::MetaProperty("og:url").found(html, lowercase(html)) == Some(Some(url))
            && is_http(url) ==> canonical(html) == Some(Some(url)),
{
}

/// What is read from a page is the text that is extracted from it, without the white space
/// around it, with the link and the note that go with that text; nothing where it is blank.
#[verifier::rlimit(40)]
pub proof fn law_articles_are_read(feed_url: Seq<char>, html: Seq<char>, title: Seq<char>)
    ensures
        article_read(feed_url, html, title) matches Some(r) ==> {
            &&& article_body(html) matches Some(body) && r.0 == trimmed(body) && r.0.len() > 0
            &&& resolved(feed_url, html, r.0, title) == Some((r.1, r.2))
        },
        article_body(html) matches Some(body) ==> (trimmed(body).len() > 0 && resolved(
            feed_url,
            html,
            trimmed(body),
            title,
        ) is Some ==> article_read(feed_url, html, title) is Some),
{
}

/// Elements are removed name by name: those of one list and then those of another are those of
/// both, and for one name it is all of its elements.
pub proof fn law_names_are_removed_one_by_one(
    html: Seq<char>,
    a: Seq<Seq<char>>,
    b: Seq<Seq<char>>,
    name: Seq<char>,
)
    ensures
        without_all(html, a + b) == (match without_all(html, a) {
            Some(rest) => without_all(rest, b),
            None => None,
        }),
        without_all(html, seq![name]) == (match without(html, lowercase(html), name) {
            Some(rest) => Some(decode_utf8(rest)),
            None => None,
        }),
    decreases a.len(),
{
    assert(seq![name].skip(1) == Seq::<Seq<char>>::empty());
    if let Some(rest) = without(html, lowercase(html), name) {
        assert(without_all(decode_utf8(rest), seq![name].skip(1)) == Some(decode_utf8(rest)));
    }
    if a.len() == 0 {
        assert(a + b == b);
    } else {
        assert((a + b)[0] == a[0]);
        assert((a + b).skip(1) == a.skip(1) + b);
        if let Some(rest) = without(html, lowercase(html), a[0]) {
            law_names_are_removed_one_by_one(decode_utf8(rest), a.skip(1), b, name);
        }
    }
}

/// Nothing but elements is removed: a page without a start mark, or without an end mark behind
/// the first one, stays as it is, and the first element leaves what stands before it and behind
/// it.
pub proof fn law_only_elements_are_removed(
    page: Seq<u8>,
    open: Seq<u8>,
    close: Seq<u8>,
    start: int,
    end: int,
)
    ensures
        !occurs(page, open) ==> removed(page, page, open, close) == Some(page),
        !occurs(page, close) ==> removed(page, page, open, close) == Some(page),
        occurs_at(page, open, start) && (forall|i: int|
            i < start ==> !#[trigger] occurs_at(page, open, i)) && start < end && occurs_at(page, close, end) && (forall|i: int|
            start < i < end ==> !#[trigger] occurs_at(page, close, i)) && can_cut(page, 0, start)
            && can_cut(page, end + close.len(), page.len() as int) ==> ({
            let rest = page.subrange(0, start) + page.subrange(
                end + close.len(),
                page.len() as int,
            );
            removed(page, page, open, close) == removed(rest, rest, open, close)
        }),
{
    lemma_find_from(page, open, 0);
    if let Some(s) = find_from(page, open, 0) {
        assert(occurs(page, open));
        lemma_find_from(page, close, s + 1);
        if let Some(e) = find_from(page, close, s + 1) {
            assert(occurs(page, close));
            if occurs_at(page, open, start) && (forall|i: int|
                i < start ==> !#[trigger] occurs_at(page, open, i)) && start < end && occurs_at(
                page,
                close,
                end,
            ) && (forall|i: int| start < i < end ==> !#[trigger] occurs_at(page, close, i)) {
                if s < start {
                    assert(!occurs_at(page, open, s));
                }
                assert(s == start);
                if e < end {
                    assert(!occurs_at(page, close, e));
                }
                assert(e == end);
            }
        }
    }
}

} // verus!

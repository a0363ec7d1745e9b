//! HTML as it stands in feeds: escaping, entities, and plain text.

use vstd::prelude::*;

use crate::num::{
    decimal, digits_value, law_numbers_are_read_back, parse_unsigned, parse_unsigned_of,
};
use crate::text::{
    append, append_str, chars_of, copy_range, find_from, has_prefix, index_from, is_space, join,
    join_of, law_white_space_parts_words, lemma_find_from, same_str, starts_with, string_of,
    trim_str, trimmed, words, words_of,
};

verus! {

// ---------------------------------------------------------------------------
// Escaping
// ---------------------------------------------------------------------------

/// What a character is written as in HTML text and attribute values.
pub open spec fn escape_char(c: char) -> Seq<char> {
    if c == '&' {
        "&amp;"@
    } else if c == '<' {
        "&lt;"@
    } else if c == '>' {
        "&gt;"@
    } else if c == '"' {
        "&quot;"@
    } else {
        seq![c]
    }
}

/// A text with each character written as HTML needs it.
pub open spec fn escape(s: Seq<char>) -> Seq<char>
    decreases s.len(),
{
    if s.len() == 0 {
        s
    } else {
        escape_char(s[0]) + escape(s.skip(1))
    }
}

/// Escapes `&`, `<`, `>` and `"`.
pub fn html_escape(s: &str) -> (r: String)
    ensures
        r@ == escape(s@),
{
    let c = chars_of(s);
    let n: usize = c.len();
    let mut out: Vec<char> = Vec::new();
    let mut i: usize = 0;
    assert(c@.skip(0) == c@);
    assert(out@ + escape(c@) == escape(c@));
    while i < n
        invariant
            0 <= i <= n,
            n == c@.len(),
            out@ + escape(c@.skip(i as int)) == escape(c@),
        decreases n - i,
    {
        let ghost out0 = out@;
        let ghost rest = c@.skip(i as int);
        let ch = c[i];
        if ch == '&' {
            append_str(&mut out, "&amp;");
        } else if ch == '<' {
            append_str(&mut out, "&lt;");
        } else if ch == '>' {
            append_str(&mut out, "&gt;");
        } else if ch == '"' {
            append_str(&mut out, "&quot;");
        } else {
            out.push(ch);
        }
        assert(out@ == out0 + escape_char(ch));
        assert(rest.skip(1) == c@.skip(i + 1));
        assert(out0 + (escape_char(ch) + escape(rest.skip(1))) == out@ + escape(rest.skip(1)));
        i += 1;
    }
    assert(c@.skip(n as int) == Seq::<char>::empty());
    assert(out@ + Seq::<char>::empty() == out@);
    string_of(out.as_slice())
}

// ---------------------------------------------------------------------------
// Entities
// ---------------------------------------------------------------------------

/// The text that a named entity stands for.
pub open spec fn named_entity(e: Seq<char>) -> Option<Seq<char>> {
    if e == "amp"@ {
        Some("&"@)
    } else if e == "lt"@ {
        Some("<"@)
    } else if e == "gt"@ {
        Some(">"@)
    } else if e == "quot"@ {
        Some("\""@)
    } else if e == "apos"@ {
        Some("'"@)
    } else if e == "nbsp"@ {
        Some(" "@)
    } else if e == "shy"@ {
        Some(""@)
    } else if e == "mdash"@ {
        Some("\u{2014}"@)
    } else if e == "ndash"@ {
        Some("\u{2013}"@)
    } else if e == "hellip"@ {
        Some("\u{2026}"@)
    } else if e == "ldquo"@ {
        Some("\u{201C}"@)
    } else if e == "rdquo"@ {
        Some("\u{201D}"@)
    } else if e == "lsquo"@ {
        Some("\u{2018}"@)
    } else if e == "rsquo"@ {
        Some("\u{2019}"@)
    } else if e == "laquo"@ {
        Some("\u{AB}"@)
    } else if e == "raquo"@ {
        Some("\u{BB}"@)
    } else if e == "auml"@ {
        Some("\u{E4}"@)
    } else if e == "ouml"@ {
        Some("\u{F6}"@)
    } else if e == "uuml"@ {
        Some("\u{FC}"@)
    } else if e == "Auml"@ {
        Some("\u{C4}"@)
    } else if e == "Ouml"@ {
        Some("\u{D6}"@)
    } else if e == "Uuml"@ {
        Some("\u{DC}"@)
    } else if e == "szlig"@ {
        Some("\u{DF}"@)
    } else if e == "eacute"@ {
        Some("\u{E9}"@)
    } else if e == "egrave"@ {
        Some("\u{E8}"@)
    } else if e == "ecirc"@ {
        Some("\u{EA}"@)
    } else if e == "euro"@ {
        Some("\u{20AC}"@)
    } else if e == "pound"@ {
        Some("\u{A3}"@)
    } else if e == "copy"@ {
        Some("\u{A9}"@)
    } else if e == "reg"@ {
        Some("\u{AE}"@)
    } else if e == "trade"@ {
        Some("\u{2122}"@)
    } else if e == "bull"@ {
        Some("\u{2022}"@)
    } else if e == "middot"@ {
        Some("\u{B7}"@)
    } else {
        None
    }
}

/// Whether a number is the code of a character.
pub open spec fn is_char_code(n: int) -> bool {
    0 <= n <= 0xd7ff || 0xe000 <= n <= 0x10ffff
}

/// `char::from_u32` gives the character with the code, where there is one: for
/// every number up to `0x10ffff` but the surrogates.
pub assume_specification[ char::from_u32 ](n: u32) -> (r: Option<char>)
    ensures
        match r {
            Some(c) => is_char_code(n as int) && c as u32 == n,
            None => !is_char_code(n as int),
        },
;

/// The character that a number written in the given base stands for.
pub open spec fn numeric_entity(digits: Seq<char>, radix: int) -> Option<Seq<char>> {
    match parse_unsigned(digits, radix, 0xffff_ffff) {
        Some(n) => if is_char_code(n) {
            Some(seq![n as char])
        } else {
            None
        },
        None => None,
    }
}

/// The text that an entity stands for, given what is between `&` and `;`.
pub open spec fn entity(e: Seq<char>) -> Option<Seq<char>> {
    if starts_with(e, "#x"@) || starts_with(e, "#X"@) {
        numeric_entity(e.skip(2), 16)
    } else if starts_with(e, "#"@) {
        numeric_entity(e.skip(1), 10)
    } else {
        named_entity(e)
    }
}

/// A text with its entities replaced by what they stand for. What looks like an
/// entity but is none stays as it is.
pub open spec fn decoded(s: Seq<char>) -> Seq<char>
    decreases s.len(),
{
    if s.len() == 0 {
        s
    } else if s[0] != '&' {
        seq![s[0]] + decoded(s.skip(1))
    } else {
        match entity_at(s) {
            Some((text, n)) => if 0 < n <= s.len() {
                text + decoded(s.skip(n))
            } else {
                s
            },
            None => seq!['&'] + decoded(s.skip(1)),
        }
    }
}

/// The text and the length of the entity at the start of a text that starts
/// with `&`.
pub open spec fn entity_at(s: Seq<char>) -> Option<(Seq<char>, int)> {
    match find_from(s, seq![';'], 0) {
        Some(semi) => match entity(s.subrange(1, semi)) {
            Some(text) => Some((text, semi + 1)),
            None => None,
        },
        None => None,
    }
}

fn named(e: &[char]) -> (r: Option<&'static str>)
    ensures
        match r {
            Some(t) => named_entity(e@) == Some(t@),
            None => named_entity(e@) is None,
        },
{
    if same_str(e, "amp") {
        Some("&")
    } else if same_str(e, "lt") {
        Some("<")
    } else if same_str(e, "gt") {
        Some(">")
    } else if same_str(e, "quot") {
        Some("\"")
    } else if same_str(e, "apos") {
        Some("'")
    } else if same_str(e, "nbsp") {
        Some(" ")
    } else if same_str(e, "shy") {
        Some("")
    } else if same_str(e, "mdash") {
        Some("\u{2014}")
    } else if same_str(e, "ndash") {
        Some("\u{2013}")
    } else if same_str(e, "hellip") {
        Some("\u{2026}")
    } else if same_str(e, "ldquo") {
        Some("\u{201C}")
    } else if same_str(e, "rdquo") {
        Some("\u{201D}")
    } else if same_str(e, "lsquo") {
        Some("\u{2018}")
    } else if same_str(e, "rsquo") {
        Some("\u{2019}")
    } else if same_str(e, "laquo") {
        Some("\u{AB}")
    } else if same_str(e, "raquo") {
        Some("\u{BB}")
    } else if same_str(e, "auml") {
        Some("\u{E4}")
    } else if same_str(e, "ouml") {
        Some("\u{F6}")
    } else if same_str(e, "uuml") {
        Some("\u{FC}")
    } else if same_str(e, "Auml") {
        Some("\u{C4}")
    } else if same_str(e, "Ouml") {
        Some("\u{D6}")
    } else if same_str(e, "Uuml") {
        Some("\u{DC}")
    } else if same_str(e, "szlig") {
        Some("\u{DF}")
    } else if same_str(e, "eacute") {
        Some("\u{E9}")
    } else if same_str(e, "egrave") {
        Some("\u{E8}")
    } else if same_str(e, "ecirc") {
        Some("\u{EA}")
    } else if same_str(e, "euro") {
        Some("\u{20AC}")
    } else if same_str(e, "pound") {
        Some("\u{A3}")
    } else if same_str(e, "copy") {
        Some("\u{A9}")
    } else if same_str(e, "reg") {
        Some("\u{AE}")
    } else if same_str(e, "trade") {
        Some("\u{2122}")
    } else if same_str(e, "bull") {
        Some("\u{2022}")
    } else if same_str(e, "middot") {
        Some("\u{B7}")
    } else {
        None
    }
}

/// The character that a number written in the given base stands for.
pub fn numeric(digits: &[char], radix: u32) -> (r: Option<Vec<char>>)
    requires
        2 <= radix <= 16,
    ensures
        match r {
            Some(t) => numeric_entity(digits@, radix as int) == Some(t@),
            None => numeric_entity(digits@, radix as int) is None,
        },
{
    match parse_unsigned_of(digits, radix, 0xffff_ffff) {
        Some(n) => match char::from_u32(n) {
            Some(c) => {
                let mut out: Vec<char> = Vec::new();
                out.push(c);
                proof {
                    vstd::utf8::char_u32_cast(c, n);
                    assert((n as int) as char == n as char);
                }
                assert(out@ == seq![(n as int) as char]);
                Some(out)
            },
            None => None,
        },
        None => None,
    }
}

fn entity_text(e: &[char]) -> (r: Option<Vec<char>>)
    ensures
        match r {
            Some(t) => entity(e@) == Some(t@),
            None => entity(e@) is None,
        },
{
    proof {
        reveal_strlit("#x");
        reveal_strlit("#X");
        reveal_strlit("#");
    }
    if has_prefix(e, "#x") || has_prefix(e, "#X") {
        let d = copy_range(e, 2, e.len());
        assert(d@ == e@.skip(2));
        numeric(d.as_slice(), 16)
    } else if has_prefix(e, "#") {
        let d = copy_range(e, 1, e.len());
        assert(d@ == e@.skip(1));
        numeric(d.as_slice(), 10)
    } else {
        match named(e) {
            Some(t) => Some(chars_of(t)),
            None => None,
        }
    }
}

/// Replaces the entities in a text by what they stand for.
pub fn decode_entities(s: &str) -> (r: String)
    ensures
        r@ == decoded(s@),
{
    let c = chars_of(s);
    let out = decode_chars(c.as_slice());
    string_of(out.as_slice())
}

fn decode_chars(c: &[char]) -> (r: Vec<char>)
    ensures
        r@ == decoded(c@),
{
    let n: usize = c.len();
    let mut semi_mark: Vec<char> = Vec::new();
    semi_mark.push(';');
    assert(semi_mark@ == seq![';']);
    let mut out: Vec<char> = Vec::new();
    let mut i: usize = 0;
    assert(c@.skip(0) == c@);
    assert(out@ + decoded(c@) == decoded(c@));
    while i < n
        invariant
            0 <= i <= n,
            n == c@.len(),
            n == c.len(),
            semi_mark@ == seq![';'],
            out@ + decoded(c@.skip(i as int)) == decoded(c@),
        decreases n - i,
    {
        let ghost out0 = out@;
        let ghost rest = c@.skip(i as int);
        assert(rest.skip(1) == c@.skip(i + 1));
        if c[i] != '&' {
            out.push(c[i]);
            i += 1;
            assert(out0 + (seq![rest[0]] + decoded(rest.skip(1))) == out@ + decoded(rest.skip(1)));
        } else {
            let semi = index_from(c, semi_mark.as_slice(), i);
            proof {
                lemma_find_shift(c@, seq![';'], i as int, 0);
                crate::text::lemma_find_from(c@, seq![';'], i as int);
            }
            let mut hit: Option<Vec<char>> = None;
            let mut end: usize = i;
            if let Some(k) = semi {
                assert(c@.subrange(k as int, k + 1)[0] == c@[k as int]);
                assert(c@[k as int] == ';');
                assert(i < k);
                let e = copy_range(c, i + 1, k);
                assert(e@ == rest.subrange(1, k - i));
                hit = entity_text(e.as_slice());
                end = k + 1;
            }
            match hit {
                Some(t) => {
                    append(&mut out, t.as_slice());
                    assert(entity_at(rest) == Some((t@, end - i)));
                    assert(rest.skip(end - i) == c@.skip(end as int));
                    i = end;
                    assert(out0 + (t@ + decoded(c@.skip(end as int))) == out@ + decoded(
                        c@.skip(end as int),
                    ));
                },
                None => {
                    assert(entity_at(rest) is None);
                    out.push('&');
                    i += 1;
                    assert(out0 + (seq!['&'] + decoded(rest.skip(1))) == out@ + decoded(
                        rest.skip(1),
                    ));
                },
            }
        }
    }
    assert(c@.skip(n as int) == Seq::<char>::empty());
    assert(out@ + Seq::<char>::empty() == out@);
    out
}

/// Searching from a position is searching in the rest of the text.
pub proof fn lemma_find_shift<T>(s: Seq<T>, needle: Seq<T>, base: int, from: int)
    requires
        0 <= base <= s.len(),
        0 <= from,
    ensures
        find_from(s, needle, base + from) == match find_from(s.skip(base), needle, from) {
            Some(i) => Some(base + i),
            None => None,
        },
    decreases s.len() + 1 - base - from,
{
    let t = s.skip(base);
    if from + needle.len() > t.len() {
    } else {
        assert(t.subrange(from, from + needle.len()) == s.subrange(
            base + from,
            base + from + needle.len(),
        ));
        if crate::text::occurs_at(t, needle, from) {
        } else {
            lemma_find_shift(s, needle, base, from + 1);
        }
    }
}

// ---------------------------------------------------------------------------
// Plain text
// ---------------------------------------------------------------------------

/// The characters that stand outside of tags; `in_tag` says whether the text
/// starts inside of one.
pub open spec fn outside_tags(s: Seq<char>, in_tag: bool) -> Seq<char>
    decreases s.len(),
{
    if s.len() == 0 {
        s
    } else if s[0] == '<' {
        outside_tags(s.skip(1), true)
    } else if s[0] == '>' {
        outside_tags(s.skip(1), false)
    } else if in_tag {
        outside_tags(s.skip(1), true)
    } else {
        seq![s[0]] + outside_tags(s.skip(1), false)
    }
}

/// The text of an HTML fragment: without tags, with entities decoded, and with
/// single spaces between its words.
pub open spec fn stripped(html: Seq<char>) -> Seq<char> {
    join(words(decoded(outside_tags(html, false))), " "@)
}

fn drop_tags(c: &[char]) -> (r: Vec<char>)
    ensures
        r@ == outside_tags(c@, false),
{
    let n: usize = c.len();
    let mut out: Vec<char> = Vec::new();
    let mut in_tag = false;
    let mut i: usize = 0;
    assert(c@.skip(0) == c@);
    assert(out@ + outside_tags(c@, false) == outside_tags(c@, false));
    while i < n
        invariant
            0 <= i <= n,
            n == c@.len(),
            out@ + outside_tags(c@.skip(i as int), in_tag) == outside_tags(c@, false),
        decreases n - i,
    {
        let ghost out0 = out@;
        let ghost rest = c@.skip(i as int);
        assert(rest.skip(1) == c@.skip(i + 1));
        let ch = c[i];
        if ch == '<' {
            in_tag = true;
        } else if ch == '>' {
            in_tag = false;
        } else if !in_tag {
            out.push(ch);
            assert(out0 + (seq![ch] + outside_tags(rest.skip(1), false)) == out@ + outside_tags(
                rest.skip(1),
                false,
            ));
        }
        i += 1;
    }
    assert(c@.skip(n as int) == Seq::<char>::empty());
    assert(out@ + Seq::<char>::empty() == out@);
    out
}

/// Strips the tags of an HTML fragment, decodes its entities and normalises its
/// white space.
pub fn strip_html(html: &str) -> (r: String)
    ensures
        r@ == stripped(html@),
{
    let c = chars_of(html);
    let bare = drop_tags(c.as_slice());
    let text = decode_chars(bare.as_slice());
    let w = words_of(text.as_slice());
    let j = join_of(&w, " ");
    string_of(j.as_slice())
}

/// The plain text of an HTML fragment.
pub fn text_to_plain(s: &str) -> (r: String)
    ensures
        r@ == trimmed(stripped(s@)),
{
    let t = strip_html(s);
    trim_str(t.as_str())
}

// ---------------------------------------------------------------------------
// Laws
// ---------------------------------------------------------------------------

proof fn lemma_entity_ahead(name: Seq<char>, rest: Seq<char>)
    requires
        forall|i: int| 0 <= i < name.len() ==> name[i] != ';',
    ensures
        ({
            let s = seq!['&'] + name + seq![';'] + rest;
            find_from(s, seq![';'], 0) == Some(1 + name.len() as int) && s.subrange(
                1,
                1 + name.len() as int,
            ) == name && s.skip(2 + name.len() as int) == rest
        }),
{
    let s = seq!['&'] + name + seq![';'] + rest;
    crate::text::lemma_find_from(s, seq![';'], 0);
    let k = 1 + name.len() as int;
    assert(s.subrange(k, k + 1) == seq![';']);
    assert(crate::text::occurs_at(s, seq![';'], k));
    assert forall|j: int| 0 <= j < k implies !crate::text::occurs_at(s, seq![';'], j) by {
        assert(s.subrange(j, j + 1)[0] == s[j]);
        if j > 0 {
            assert(s[j] == name[j - 1]);
        }
    }
    assert(s.subrange(1, k) == name);
    assert(s.skip(k + 1) == rest);
}

proof fn lemma_decode_escaped_char(c: char, rest: Seq<char>)
    ensures
        decoded(escape_char(c) + rest) == seq![c] + decoded(rest),
{
    reveal_strlit("&amp;");
    reveal_strlit("&lt;");
    reveal_strlit("&gt;");
    reveal_strlit("&quot;");
    reveal_strlit("amp");
    reveal_strlit("lt");
    reveal_strlit("gt");
    reveal_strlit("quot");
    reveal_strlit("&");
    reveal_strlit("<");
    reveal_strlit(">");
    reveal_strlit("\"");
    reveal_strlit("#x");
    reveal_strlit("#X");
    reveal_strlit("#");
    let s = escape_char(c) + rest;
    if c == '&' || c == '<' || c == '>' || c == '"' {
        let name = if c == '&' {
            "amp"@
        } else if c == '<' {
            "lt"@
        } else if c == '>' {
            "gt"@
        } else {
            "quot"@
        };
        assert(s == seq!['&'] + name + seq![';'] + rest);
        lemma_entity_ahead(name, rest);
        assert(!starts_with(name, "#x"@)) by {
            if starts_with(name, "#x"@) {
                assert(name.subrange(0, 2)[0] == name[0]);
            }
        }
        assert(!starts_with(name, "#X"@)) by {
            if starts_with(name, "#X"@) {
                assert(name.subrange(0, 2)[0] == name[0]);
            }
        }
        assert(!starts_with(name, "#"@)) by {
            if starts_with(name, "#"@) {
                assert(name.subrange(0, 1)[0] == name[0]);
            }
        }
        assert("lt"@ != "amp"@) by {
            assert("lt"@.len() != "amp"@.len());
        }
        assert("gt"@ != "amp"@) by {
            assert("gt"@.len() != "amp"@.len());
        }
        assert("gt"@ != "lt"@) by {
            assert("gt"@[0] != "lt"@[0]);
        }
        assert("quot"@ != "amp"@ && "quot"@ != "lt"@ && "quot"@ != "gt"@) by {
            assert("quot"@.len() == 4);
        }
        assert(named_entity(name) == Some(seq![c])) by {
            assert("&"@ == seq!['&']);
            assert("<"@ == seq!['<']);
            assert(">"@ == seq!['>']);
            assert("\""@ == seq!['"']);
        }
        assert(entity_at(s) == Some((seq![c], 2 + name.len() as int)));
    } else {
        assert(s[0] == c);
        assert(s.skip(1) == rest);
    }
}

/// Decoding undoes escaping, whatever the text.
pub proof fn law_decode_undoes_escape(s: Seq<char>)
    ensures
        decoded(escape(s)) == s,
    decreases s.len(),
{
    if s.len() > 0 {
        law_decode_undoes_escape(s.skip(1));
        lemma_decode_escaped_char(s[0], escape(s.skip(1)));
        assert(seq![s[0]] + s.skip(1) == s);
    }
}

/// An escaped text opens no tag and ends no attribute value: none of `<`, `>`
/// and `"` is in it.
pub proof fn law_escaped_is_inert(s: Seq<char>)
    ensures
        forall|i: int|
            0 <= i < escape(s).len() ==> {
                let c = #[trigger] escape(s)[i];
                c != '<' && c != '>' && c != '"'
            },
    decreases s.len(),
{
    if s.len() > 0 {
        reveal_strlit("&amp;");
        reveal_strlit("&lt;");
        reveal_strlit("&gt;");
        reveal_strlit("&quot;");
        law_escaped_is_inert(s.skip(1));
        let head = escape_char(s[0]);
        let tail = escape(s.skip(1));
        assert forall|i: int| 0 <= i < escape(s).len() implies ({
            let c = #[trigger] escape(s)[i];
            c != '<' && c != '>' && c != '"'
        }) by {
            if i >= head.len() {
                assert(escape(s)[i] == tail[i - head.len()]);
            } else {
                assert(escape(s)[i] == head[i]);
            }
        }
    }
}

/// Whether no character of a text is part of a tag's brackets.
pub open spec fn has_no_brackets(s: Seq<char>) -> bool {
    forall|i: int| 0 <= i < s.len() ==> #[trigger] s[i] != '<' && s[i] != '>'
}

proof fn lemma_outside_concat(a: Seq<char>, b: Seq<char>, in_tag: bool)
    ensures
        outside_tags(a + b, in_tag) == outside_tags(a, in_tag) + outside_tags(
            b,
            in_tag_after(a, in_tag),
        ),
    decreases a.len(),
{
    if a.len() == 0 {
        assert(a + b == b);
        assert(outside_tags(a, in_tag) + outside_tags(b, in_tag) == outside_tags(b, in_tag));
    } else {
        let now = in_tag_after(seq![a[0]], in_tag);
        assert(seq![a[0]].drop_last() == Seq::<char>::empty());
        assert(in_tag_after(seq![a[0]].drop_last(), in_tag) == in_tag);
        assert((a + b).skip(1) == a.skip(1) + b);
        lemma_outside_concat(a.skip(1), b, now);
        lemma_in_tag_step(a, in_tag);
        let x = outside_tags(a.skip(1), now);
        let y = outside_tags(b, in_tag_after(a, in_tag));
        assert(seq![a[0]] + (x + y) == (seq![a[0]] + x) + y);
    }
}

/// Whether a text ends inside of a tag.
pub open spec fn in_tag_after(s: Seq<char>, in_tag: bool) -> bool
    decreases s.len(),
{
    if s.len() == 0 {
        in_tag
    } else if s.last() == '<' {
        true
    } else if s.last() == '>' {
        false
    } else {
        in_tag_after(s.drop_last(), in_tag)
    }
}

proof fn lemma_in_tag_step(s: Seq<char>, in_tag: bool)
    requires
        s.len() > 0,
    ensures
        in_tag_after(s, in_tag) == in_tag_after(s.skip(1), in_tag_after(seq![s[0]], in_tag)),
    decreases s.len(),
{
    assert(seq![s[0]].drop_last() == Seq::<char>::empty());
    if s.len() == 1 {
        assert(s == seq![s[0]]);
    } else {
        lemma_in_tag_step(s.drop_last(), in_tag);
        assert(s.skip(1).drop_last() == s.drop_last().skip(1));
        assert(s.skip(1).last() == s.last());
    }
}

/// A text without brackets has no tags in it and stays as it is. A tag and what is in it is
/// dropped, and what stands before it and behind it is not.
pub proof fn law_tags_are_dropped(a: Seq<char>, tag: Seq<char>, b: Seq<char>)
    requires
        has_no_brackets(tag),
        has_no_brackets(a),
    ensures
        outside_tags(a, false) == a,
        outside_tags(a + "<"@ + tag + ">"@ + b, false) == a + outside_tags(b, false),
        has_no_brackets(outside_tags(b, false)),
{
    reveal_strlit("<");
    reveal_strlit(">");
    lemma_plain_is_kept(a);
    lemma_no_brackets_left(b, false);
    let t = "<"@ + tag + ">"@;
    assert(a + "<"@ + tag + ">"@ + b == a + (t + b));
    lemma_outside_concat(a, t + b, false);
    lemma_outside_concat(t, b, in_tag_after(a, false));
    lemma_plain_outside(a);
    assert(t.last() == '>');
    lemma_tag_is_dropped(tag);
    assert(t.skip(1) == tag + ">"@);
    assert(outside_tags(t, false) == outside_tags(tag + ">"@, true));
    assert(Seq::<char>::empty() + outside_tags(b, false) == outside_tags(b, false));
}

proof fn lemma_plain_outside(a: Seq<char>)
    requires
        has_no_brackets(a),
    ensures
        !in_tag_after(a, false),
    decreases a.len(),
{
    if a.len() > 0 {
        assert forall|i: int| 0 <= i < a.drop_last().len() implies #[trigger] a.drop_last()[i]
            != '<' && a.drop_last()[i] != '>' by {
            assert(a[i] == a.drop_last()[i]);
        }
        assert(a[a.len() - 1] != '<');
        lemma_plain_outside(a.drop_last());
    }
}

proof fn lemma_plain_is_kept(a: Seq<char>)
    requires
        has_no_brackets(a),
    ensures
        outside_tags(a, false) == a,
    decreases a.len(),
{
    if a.len() > 0 {
        let t = a.skip(1);
        assert forall|i: int| 0 <= i < t.len() implies #[trigger] t[i] != '<' && t[i] != '>' by {
            assert(a[i + 1] == t[i]);
        }
        assert(a[0] != '<' && a[0] != '>');
        lemma_plain_is_kept(t);
        assert(seq![a[0]] + t == a);
    }
}

proof fn lemma_tag_is_dropped(tag: Seq<char>)
    requires
        has_no_brackets(tag),
    ensures
        outside_tags(tag + ">"@, true) == Seq::<char>::empty(),
    decreases tag.len(),
{
    reveal_strlit(">");
    let s = tag + ">"@;
    if tag.len() == 0 {
        assert(s[0] == '>');
        assert(s.skip(1) == Seq::<char>::empty());
        assert(outside_tags(s.skip(1), false) == Seq::<char>::empty());
    } else {
        let t = tag.skip(1);
        assert forall|i: int| 0 <= i < t.len() implies #[trigger] t[i] != '<' && t[i] != '>' by {
            assert(tag[i + 1] == t[i]);
        }
        assert(tag[0] != '<' && tag[0] != '>');
        assert(s.skip(1) == t + ">"@);
        lemma_tag_is_dropped(t);
    }
}

proof fn lemma_no_brackets_left(s: Seq<char>, in_tag: bool)
    ensures
        has_no_brackets(outside_tags(s, in_tag)),
    decreases s.len(),
{
    if s.len() > 0 {
        lemma_no_brackets_left(s.skip(1), true);
        lemma_no_brackets_left(s.skip(1), false);
        if s[0] != '<' && s[0] != '>' && !in_tag {
            let rest = outside_tags(s.skip(1), false);
            let all = seq![s[0]] + rest;
            assert forall|i: int| 0 <= i < all.len() implies #[trigger] all[i] != '<' && all[i]
                != '>' by {
                if i > 0 {
                    assert(all[i] == rest[i - 1]);
                }
            }
        }
    }
}

/// A text without an ampersand has no entities in it and stays as it is, and the number of a
/// character in an entity stands for that character.
pub proof fn law_entities_are_decoded(s: Seq<char>, n: nat, rest: Seq<char>)
    requires
        !s.contains('&'),
        is_char_code(n as int),
    ensures
        decoded(s) == s,
        decoded("&#"@ + decimal(n) + ";"@ + rest) == seq![n as char] + decoded(rest),
{
    lemma_nothing_to_decode(s);
    reveal_strlit("&#");
    reveal_strlit(";");
    reveal_strlit("#");
    reveal_strlit("#x");
    reveal_strlit("#X");
    let digits = decimal(n);
    let name = "#"@ + digits;
    law_numbers_are_read_back(n, 0xffff_ffff, n);
    assert forall|i: int| 0 <= i < name.len() implies name[i] != ';' by {
        if i > 0 {
            assert('0' <= digits[i - 1] <= '9');
        }
    }
    let text = "&#"@ + digits + ";"@ + rest;
    assert(text == seq!['&'] + name + seq![';'] + rest);
    lemma_entity_ahead(name, rest);
    assert(digits.len() > 0);
    assert('0' <= digits[0] <= '9');
    assert(name.subrange(0, 1) == "#"@);
    assert(name.skip(1) == digits);
    assert(!starts_with(name, "#x"@)) by {
        if starts_with(name, "#x"@) {
            assert(name.subrange(0, 2)[1] == name[1]);
        }
    }
    assert(!starts_with(name, "#X"@)) by {
        if starts_with(name, "#X"@) {
            assert(name.subrange(0, 2)[1] == name[1]);
        }
    }
    assert(entity(name) == Some(seq![n as int as char]));
    assert(entity_at(text) == Some((seq![n as int as char], 2 + name.len() as int)));
    assert(text[0] == '&');
    assert(n as int as char == n as char);
}

proof fn lemma_nothing_to_decode(s: Seq<char>)
    requires
        !s.contains('&'),
    ensures
        decoded(s) == s,
    decreases s.len(),
{
    if s.len() > 0 {
        let t = s.skip(1);
        assert(s.contains(s[0]));
        assert forall|i: int| 0 <= i < t.len() implies t[i] != '&' by {
            assert(s.contains(s[i + 1]));
        }
        lemma_nothing_to_decode(t);
        assert(seq![s[0]] + t == s);
    }
}

proof fn lemma_words_joined(ws: Seq<Seq<char>>)
    requires
        forall|k: int| 0 <= k < ws.len() ==> (#[trigger] ws[k]).len() > 0,
        forall|k: int, i: int|
            0 <= k < ws.len() && 0 <= i < ws[k].len() ==> !is_space(#[trigger] ws[k][i]),
    ensures
        words(join(ws, " "@)) == ws,
    decreases ws.len(),
{
    reveal_strlit(" ");
    if ws.len() == 1 {
        law_white_space_parts_words(ws[0], ' ', seq![]);
        assert(forall|i: int| 0 <= i < ws[0].len() ==> !is_space(#[trigger] ws[0][i]));
        assert(seq![ws[0]] == ws);
    } else if ws.len() > 1 {
        let t = ws.drop_last();
        let last = ws.last();
        assert forall|k: int, i: int| 0 <= k < t.len() && 0 <= i < t[k].len() implies !is_space(
            #[trigger] t[k][i],
        ) by {
            assert(t[k] == ws[k]);
            assert(!is_space(ws[k][i]));
        }
        assert forall|k: int| 0 <= k < t.len() implies (#[trigger] t[k]).len() > 0 by {
            assert(t[k] == ws[k]);
        }
        lemma_words_joined(t);
        law_white_space_parts_words(join(t, " "@), ' ', last);
        law_white_space_parts_words(last, ' ', seq![]);
        assert(ws[ws.len() - 1] == last);
        assert forall|i: int| 0 <= i < last.len() implies !is_space(#[trigger] last[i]) by {
            assert(!is_space(ws[ws.len() - 1][i]));
        }
        assert(words(last) == seq![last]);
        assert(" "@ == seq![' ']);
        assert(words(join(t, " "@) + " "@ + last) == t + seq![last]);
        assert(t + seq![last] == ws);
    } else {
        assert(join(ws, " "@) == Seq::<char>::empty());
        assert(words(Seq::<char>::empty()) == ws);
    }
}

/// The text of a piece of HTML has the words that stand outside of its tags, with the entities
/// decoded: all of them, and in their order.
pub proof fn law_all_words_are_kept(html: Seq<char>)
    ensures
        words(stripped(html)) == words(decoded(outside_tags(html, false))),
{
    let text = decoded(outside_tags(html, false));
    law_white_space_parts_words(text, ' ', seq![]);
    lemma_words_joined(words(text));
}

/// The number of a character to the base of sixteen stands for that character as well, behind
/// either form of the mark for it.
#[verifier::rlimit(40)]
pub proof fn law_hexadecimal_entities_are_decoded(digits: Seq<char>, n: int, rest: Seq<char>)
    requires
        digits.len() > 0,
        digits[0] != '+',
        !digits.contains(';'),
        digits_value(digits, 16) == Some(n),
        is_char_code(n),
    ensures
        decoded("&#x"@ + digits + ";"@ + rest) == seq![n as char] + decoded(rest),
        decoded("&#X"@ + digits + ";"@ + rest) == seq![n as char] + decoded(rest),
{
    reveal_strlit("&#x");
    reveal_strlit("&#X");
    reveal_strlit(";");
    reveal_strlit("#x");
    reveal_strlit("#X");
    let small = "#x"@ + digits;
    let large = "#X"@ + digits;
    assert forall|i: int| 0 <= i < small.len() implies small[i] != ';' && large[i] != ';' by {
        if i > 1 {
            assert(small[i] == digits[i - 2] && large[i] == digits[i - 2]);
            assert(digits.contains(digits[i - 2]));
        }
    }
    let a = "&#x"@ + digits + ";"@ + rest;
    let b = "&#X"@ + digits + ";"@ + rest;
    assert(a == seq!['&'] + small + seq![';'] + rest);
    assert(b == seq!['&'] + large + seq![';'] + rest);
    lemma_entity_ahead(small, rest);
    lemma_entity_ahead(large, rest);
    assert(small.subrange(0, 2) == "#x"@ && small.skip(2) == digits);
    assert(large.subrange(0, 2) == "#X"@ && large.skip(2) == digits);
    assert(entity(small) == Some(seq![n as char]));
    assert(entity(large) == Some(seq![n as char]));
    assert(entity_at(a) == Some((seq![n as char], 2 + small.len() as int)));
    assert(entity_at(b) == Some((seq![n as char], 2 + large.len() as int)));
    assert(a[0] == '&' && b[0] == '&');
}

/// An ampersand that starts no entity stays as it is: one that no semicolon follows, and one
/// with a name behind it that stands for nothing.
pub proof fn law_stray_ampersands_stay(rest: Seq<char>, name: Seq<char>)
    requires
        !name.contains(';'),
        entity(name) is None,
    ensures
        !rest.contains(';') ==> decoded(seq!['&'] + rest) == seq!['&'] + decoded(rest),
        decoded(seq!['&'] + name + seq![';'] + rest) == seq!['&'] + decoded(
            name + seq![';'] + rest,
        ),
{
    let s = seq!['&'] + rest;
    assert(s.skip(1) == rest);
    if !rest.contains(';') {
        lemma_find_from(s, seq![';'], 0);
        if let Some(k) = find_from(s, seq![';'], 0) {
            assert(s.subrange(k, k + 1)[0] == s[k]);
            assert(rest[k - 1] == s[k]);
            assert(rest.contains(rest[k - 1]));
        }
    }
    assert forall|i: int| 0 <= i < name.len() implies name[i] != ';' by {
        assert(name.contains(name[i]));
    }
    lemma_entity_ahead(name, rest);
    let t = seq!['&'] + name + seq![';'] + rest;
    assert(t.skip(1) == name + seq![';'] + rest);
    assert(t[0] == '&');
}

} // verus!

//! The words of headlines and articles: spelling, significance, overlap.

use vstd::prelude::*;
use vstd::utf8::{encode_utf8, is_char_boundary};

use crate::bytes::{byte_len, cut, lemma_decode_of, slice_str, str_index_from};
use crate::text::{
    chars_of, contains, contains_str, find_from, lemma_find_from, lemma_nothing_to_replace, lowercase,
    occurs, occurs_at, replace, replace_of, same_str, string_of, trim, trim_of, words, words_of,
    CharClass,
};

verus! {

// ---------------------------------------------------------------------------
// Normal spelling
// ---------------------------------------------------------------------------

/// A lowercase text with `ss` for the sharp s and one spelling for the endings
/// of street names.
pub open spec fn folded(lower: Seq<char>) -> Seq<char> {
    let a = replace(lower, "\u{df}"@, "ss"@);
    let b = replace(a, "strasse"@, "str"@);
    let c = replace(b, "stra\u{df}e"@, "str"@);
    replace(c, "str."@, "str"@)
}

/// A text in the spelling in which texts are compared.
pub open spec fn normalized(s: Seq<char>) -> Seq<char> {
    folded(lowercase(s))
}

/// Gives street names in a lowercase text one spelling.
pub fn fold_spelling(lower: &str) -> (r: String)
    ensures
        r@ == folded(lower@),
{
    proof {
        reveal_strlit("\u{df}");
        reveal_strlit("strasse");
        reveal_strlit("stra\u{df}e");
        reveal_strlit("str.");
    }
    let c = chars_of(lower);
    let a = replace_of(c.as_slice(), "\u{df}", "ss");
    let b = replace_of(a.as_slice(), "strasse", "str");
    let d = replace_of(b.as_slice(), "stra\u{df}e", "str");
    let e = replace_of(d.as_slice(), "str.", "str");
    string_of(e.as_slice())
}

/// Brings a text into the spelling in which texts are compared.
pub fn normalize(s: &str) -> (r: String)
    ensures
        r@ == normalized(s@),
{
    let lower = s.to_lowercase();
    fold_spelling(lower.as_str())
}

/// Whether one of the terms stands in the text, whatever the spelling.
pub open spec fn any_normalized(text: Seq<char>, terms: Seq<Seq<char>>) -> bool {
    exists|i: int|
        0 <= i < terms.len() && occurs(normalized(text), normalized(#[trigger] terms[i]))
}

/// Whether one of the terms stands in the text, whatever the spelling.
pub fn contains_any_normalized(text: &str, terms: &[&str]) -> (r: bool)
    ensures
        r == any_normalized(text@, terms.deep_view()),
{
    let hay = normalize(text);
    let hay_chars = chars_of(hay.as_str());
    let n: usize = terms.len();
    let mut i: usize = 0;
    while i < n
        invariant
            0 <= i <= n,
            n == terms@.len(),
            hay_chars@ == normalized(text@),
            forall|j: int|
                0 <= j < i ==> !occurs(
                    normalized(text@),
                    normalized(#[trigger] terms.deep_view()[j]),
                ),
        decreases n - i,
    {
        let term = normalize(terms[i]);
        if contains_str(hay_chars.as_slice(), term.as_str()) {
            assert(occurs(normalized(text@), normalized(terms.deep_view()[i as int])));
            return true;
        }
        i += 1;
    }
    false
}

// ---------------------------------------------------------------------------
// Significant words
// ---------------------------------------------------------------------------

/// Words that say nothing about what happened where.
pub open spec fn is_common(w: Seq<char>) -> bool {
    w == "berlin"@ || w == "polizei"@ || w == "meldung"@ || w == "update"@ || w == "heute"@
}

/// Whether a bare word tells headlines apart.
pub open spec fn is_significant(w: Seq<char>) -> bool {
    w.len() >= 5 && !is_common(w)
}

/// The significant ones among words, without the punctuation around them.
pub open spec fn significant(ws: Seq<Seq<char>>) -> Seq<Seq<char>>
    decreases ws.len(),
{
    if ws.len() == 0 {
        seq![]
    } else {
        let w = trim(ws[0], CharClass::NotAlphanumeric);
        if is_significant(w) {
            seq![w] + significant(ws.skip(1))
        } else {
            significant(ws.skip(1))
        }
    }
}

/// The first elements of a sequence, at most `n`.
pub open spec fn at_most<T>(s: Seq<T>, n: int) -> Seq<T> {
    if s.len() <= n {
        s
    } else {
        s.take(n)
    }
}

/// The words by which a headline is told from others.
pub open spec fn title_words(title: Seq<char>) -> Seq<Seq<char>> {
    at_most(significant(words(normalized(title))), 8)
}

fn common(w: &[char]) -> (r: bool)
    ensures
        r == is_common(w@),
{
    same_str(w, "berlin") || same_str(w, "polizei") || same_str(w, "meldung") || same_str(
        w,
        "update",
    ) || same_str(w, "heute")
}

/// The words by which a headline is told from others: in normal spelling,
/// without punctuation, of at least five letters, and at most eight of them.
pub fn significant_words(s: &str) -> (r: Vec<String>)
    ensures
        r.deep_view() == title_words(s@),
{
    let text = normalize(s);
    let c = chars_of(text.as_str());
    let ws = words_of(c.as_slice());
    let n: usize = ws.len();
    let ghost all = ws.deep_view();
    let mut out: Vec<String> = Vec::new();
    let mut i: usize = 0;
    assert(all.skip(0) == all);
    assert(out.deep_view() + significant(all) == significant(all));
    while i < n && out.len() < 8
        invariant
            0 <= i <= n,
            n == ws@.len(),
            all == ws.deep_view(),
            out.len() <= 8,
            out.deep_view() + significant(all.skip(i as int)) == significant(all),
        decreases n - i,
    {
        let ghost rest = all.skip(i as int);
        let ghost before = out.deep_view();
        assert(rest.skip(1) == all.skip(i + 1));
        assert(rest[0] == ws@[i as int]@);
        let w = trim_of(ws[i].as_slice(), CharClass::NotAlphanumeric);
        if w.len() >= 5 && !common(w.as_slice()) {
            let word = string_of(w.as_slice());
            out.push(word);
            assert(out.deep_view() == before.push(w@)) by {
                assert(word.deep_view() == word@);
            }
            assert(before + (seq![w@] + significant(rest.skip(1))) == before.push(w@)
                + significant(rest.skip(1)));
        }
        i += 1;
    }
    proof {
        let s = significant(all);
        assert(out.deep_view().len() == out@.len());
        if i == n {
            assert(significant(all.skip(n as int)) == Seq::<Seq<char>>::empty());
            assert(out.deep_view() + Seq::<Seq<char>>::empty() == out.deep_view());
            assert(s.take(s.len() as int) == s);
        } else {
            assert(s.take(8) == out.deep_view());
            if s.len() <= 8 {
                assert(s.take(s.len() as int) == s);
            }
        }
    }
    out
}

/// How many of the words stand in a text.
pub open spec fn hits(ws: Seq<Seq<char>>, hay: Seq<char>) -> nat
    decreases ws.len(),
{
    if ws.len() == 0 {
        0
    } else {
        hits(ws.drop_last(), hay) + (if occurs(hay, ws.last()) {
            1nat
        } else {
            0nat
        })
    }
}

/// How many of the words stand in a text.
pub fn count_hits(ws: &[&str], hay: &[char]) -> (r: usize)
    ensures
        r == hits(ws.deep_view(), hay@),
        r <= ws@.len(),
{
    let n: usize = ws.len();
    let ghost all = ws.deep_view();
    let mut count: usize = 0;
    let mut i: usize = 0;
    while i < n
        invariant
            0 <= i <= n,
            n == ws@.len(),
            all == ws.deep_view(),
            count <= i,
            count == hits(all.take(i as int), hay@),
        decreases n - i,
    {
        assert(all.take(i + 1).drop_last() == all.take(i as int));
        assert(all.take(i + 1).last() == ws@[i as int]@);
        if contains_str(hay, ws[i]) {
            count += 1;
        }
        i += 1;
    }
    assert(all.take(n as int) == all);
    count
}

/// Whether a text is about what its headline says: at least two of the
/// headline's words stand in it, or half of them. A headline with fewer than
/// two such words says nothing against it.
pub open spec fn is_about(text: Seq<char>, title: Seq<char>) -> bool {
    let ws = title_words(title);
    let n = hits(ws, normalized(text));
    ws.len() < 2 || n >= 2 || n * 2 >= ws.len()
}

/// Whether a text is about what its headline says.
pub fn text_matches_title(text: &str, title: &str) -> (r: bool)
    ensures
        r == is_about(text@, title@),
{
    let ws = significant_words(title);
    let n: usize = ws.len();
    if n < 2 {
        return true;
    }
    let hay = normalize(text);
    let hay_chars = chars_of(hay.as_str());
    let ghost all = ws.deep_view();
    let mut count: usize = 0;
    let mut i: usize = 0;
    while i < n
        invariant
            0 <= i <= n,
            n == ws@.len(),
            all == ws.deep_view(),
            all.len() <= 8,
            count <= i,
            hay_chars@ == normalized(text@),
            count == hits(all.take(i as int), normalized(text@)),
        decreases n - i,
    {
        assert(all.take(i + 1).drop_last() == all.take(i as int));
        assert(all.take(i + 1).last() == ws@[i as int]@);
        if contains_str(hay_chars.as_slice(), ws[i].as_str()) {
            count += 1;
        }
        i += 1;
    }
    assert(all.take(n as int) == all);
    count >= 2 || count * 2 >= n
}

/// How many significant words two headlines share.
pub open spec fn overlap(a: Seq<char>, b: Seq<char>) -> nat {
    title_words(a).to_set().intersect(title_words(b).to_set()).len()
}

/// Whether a word is among the first `n` of a list.
fn listed(list: &Vec<String>, n: usize, w: &String) -> (r: bool)
    requires
        n <= list@.len(),
    ensures
        r == list.deep_view().take(n as int).contains(w@),
{
    let mut i: usize = 0;
    while i < n
        invariant
            0 <= i <= n <= list@.len(),
            forall|j: int| 0 <= j < i ==> #[trigger] list.deep_view()[j] != w@,
        decreases n - i,
    {
        if list[i] == *w {
            assert(list.deep_view().take(n as int)[i as int] == w@);
            return true;
        }
        i += 1;
    }
    false
}

/// How many significant words two headlines share.
pub fn title_overlap(a: &str, b: &str) -> (r: usize)
    ensures
        r == overlap(a@, b@),
{
    let aw = significant_words(a);
    let bw = significant_words(b);
    let n: usize = aw.len();
    let ghost sa = aw.deep_view();
    let ghost sb = bw.deep_view();
    let mut count: usize = 0;
    let mut i: usize = 0;
    assert(sa.take(0).to_set().intersect(sb.to_set()) =~= Set::<Seq<char>>::empty());
    while i < n
        invariant
            0 <= i <= n,
            n == aw@.len(),
            sa == aw.deep_view(),
            sb == bw.deep_view(),
            count <= i,
            count == sa.take(i as int).to_set().intersect(sb.to_set()).len(),
        decreases n - i,
    {
        let again = listed(&aw, i, &aw[i]);
        let shared = listed(&bw, bw.len(), &aw[i]);
        proof {
            let w = aw@[i as int]@;
            let old_set = sa.take(i as int).to_set();
            let new_set = sa.take(i + 1).to_set();
            assert(sb.take(sb.len() as int) == sb);
            assert(sa[i as int] == w);
            assert(sa.take(i + 1) == sa.take(i as int).push(w));
            sa.take(i as int).lemma_push_to_set_commute(w);
            if again {
                assert(new_set =~= old_set);
            } else if shared {
                assert(new_set.intersect(sb.to_set()) =~= old_set.intersect(sb.to_set()).insert(w));
                assert(!old_set.intersect(sb.to_set()).contains(w));
            } else {
                assert(new_set.intersect(sb.to_set()) =~= old_set.intersect(sb.to_set()));
            }
        }
        if !again && shared {
            count += 1;
        }
        i += 1;
    }
    assert(sa.take(n as int) == sa);
    count
}

// ---------------------------------------------------------------------------
// Names
// ---------------------------------------------------------------------------

/// The words in lowercase.
pub open spec fn lowered(ws: Seq<Seq<char>>) -> Seq<Seq<char>> {
    ws.map_values(|w: Seq<char>| lowercase(w))
}

/// Whether a name is in a list, whatever its case.
pub open spec fn is_listed(names: Seq<Seq<char>>, name: Seq<char>) -> bool {
    lowered(names).contains(lowercase(name))
}

/// Whether a name is in a list of names, given as they are in lowercase.
pub fn key_is_listed(keys: &Vec<String>, key: &String) -> (r: bool)
    ensures
        r == keys.deep_view().contains(key@),
{
    let n: usize = keys.len();
    let mut i: usize = 0;
    while i < n
        invariant
            0 <= i <= n,
            n == keys@.len(),
            forall|j: int| 0 <= j < i ==> #[trigger] keys.deep_view()[j] != key@,
        decreases n - i,
    {
        if keys[i] == *key {
            assert(keys.deep_view()[i as int] == key@);
            return true;
        }
        i += 1;
    }
    false
}

// ---------------------------------------------------------------------------
// The relevant part of an article
// ---------------------------------------------------------------------------

/// What marks the start of the boilerplate below an article.
pub open spec fn boilerplate_marks() -> Seq<Seq<char>> {
    seq![
        "impressum"@,
        "kontakt"@,
        "datenschutz"@,
        "newsletter"@,
        "pressekontakt"@,
    ]
}

/// The first byte position at which one of the marks stands in a text.
pub open spec fn first_mark(lower: Seq<u8>, marks: Seq<Seq<char>>) -> Option<int>
    decreases marks.len(),
{
    if marks.len() == 0 {
        None
    } else {
        match (first_mark(lower, marks.drop_last()), find_from(lower, encode_utf8(marks.last()), 0)) {
            (Some(a), Some(b)) => Some(if b < a {
                b
            } else {
                a
            }),
            (Some(a), None) => Some(a),
            (None, b) => b,
        }
    }
}

/// The last position, `i` or before it, at which a text can be cut.
pub open spec fn boundary_below(b: Seq<u8>, i: int) -> int
    decreases i,
{
    if i <= 0 {
        0
    } else if is_char_boundary(b, i) {
        i
    } else {
        boundary_below(b, i - 1)
    }
}

/// The part of an article before the boilerplate, given the article in
/// lowercase.
pub open spec fn relevant(article: Seq<char>, lower: Seq<char>) -> Seq<char> {
    let b = encode_utf8(article);
    let end = match first_mark(encode_utf8(lower), boilerplate_marks()) {
        Some(i) => i,
        None => b.len() as int,
    };
    cut(b, 0, boundary_below(b, end))
}

/// The part of an article before the boilerplate; empty without an article.
pub open spec fn relevant_text(article: Option<&str>) -> Seq<char> {
    match article {
        Some(a) => relevant(a@, lowercase(a@)),
        None => seq![],
    }
}

proof fn lemma_boundary_below(b: Seq<u8>, i: int)
    requires
        vstd::utf8::valid_utf8(b),
    ensures
        0 <= boundary_below(b, i) <= b.len(),
        is_char_boundary(b, boundary_below(b, i)),
    decreases i,
{
    if i <= 0 {
    } else if is_char_boundary(b, i) {
    } else {
        lemma_boundary_below(b, i - 1);
    }
}

fn first_mark_of(lower: &str, marks: &[&str]) -> (r: Option<usize>)
    ensures
        match r {
            Some(i) => first_mark(encode_utf8(lower@), marks.deep_view()) == Some(i as int),
            None => first_mark(encode_utf8(lower@), marks.deep_view()) is None,
        },
{
    let n: usize = marks.len();
    let ghost all = marks.deep_view();
    let mut best: Option<usize> = None;
    let mut k: usize = 0;
    while k < n
        invariant
            0 <= k <= n,
            n == marks@.len(),
            all == marks.deep_view(),
            match best {
                Some(i) => first_mark(encode_utf8(lower@), all.take(k as int)) == Some(i as int),
                None => first_mark(encode_utf8(lower@), all.take(k as int)) is None,
            },
        decreases n - k,
    {
        assert(all.take(k + 1).drop_last() == all.take(k as int));
        assert(all.take(k + 1).last() == marks@[k as int]@);
        let here = str_index_from(lower, marks[k], 0);
        best = match (best, here) {
            (Some(a), Some(b)) => if b < a {
                Some(b)
            } else {
                Some(a)
            },
            (Some(a), None) => Some(a),
            (None, b) => b,
        };
        k += 1;
    }
    assert(all.take(n as int) == all);
    best
}

/// The part of an article before the boilerplate, given the article in
/// lowercase.
pub fn relevant_part<'a>(article: &'a str, lower: &str) -> (r: &'a str)
    ensures
        r@ == relevant(article@, lower@),
{
    let marks = vec!["impressum", "kontakt", "datenschutz", "newsletter", "pressekontakt"];
    let needles = marks.as_slice();
    assert(needles.deep_view() =~= boilerplate_marks());
    let mut end: usize = match first_mark_of(lower, needles) {
        Some(i) => i,
        None => byte_len(article),
    };
    let ghost b = encode_utf8(article@);
    let ghost start = end as int;
    while end > 0 && !article.is_char_boundary(end)
        invariant
            b == encode_utf8(article@),
            boundary_below(b, start) == boundary_below(b, end as int),
        decreases end,
    {
        end -= 1;
    }
    proof {
        lemma_decode_of(article@);
        lemma_boundary_below(b, start);
    }
    slice_str(article, 0, end)
}

/// The part of an article before the boilerplate; empty without an article.
pub fn first_relevant_article_text(article: Option<&str>) -> (r: &str)
    ensures
        r@ == relevant_text(article),
{
    match article {
        Some(a) => {
            let lower = a.to_lowercase();
            relevant_part(a, lower.as_str())
        },
        None => {
            proof {
                reveal_strlit("");
            }
            ""
        },
    }
}

// ---------------------------------------------------------------------------
// Laws
// ---------------------------------------------------------------------------

/// Whether no occurrence of a text can start before a boundary and end in what stands
/// behind it.
spec fn no_overlap(from: Seq<char>, behind: Seq<char>) -> bool {
    forall|k: int|
        1 <= k < from.len() && from.len() - k <= behind.len() ==> #[trigger] from.skip(k)
            != behind.take(from.len() - k)
}

proof fn lemma_replace_concat(a: Seq<char>, b: Seq<char>, from: Seq<char>, to: Seq<char>)
    requires
        from.len() > 0,
        no_overlap(from, b),
    ensures
        replace(a + b, from, to) == replace(a, from, to) + replace(b, from, to),
    decreases a.len(),
{
    let n = from.len() as int;
    if a.len() == 0 {
        assert(a + b == b);
        assert(replace(a, from, to) + replace(b, from, to) == replace(b, from, to));
    } else if occurs_at(a + b, from, 0) {
        let head = (a + b).subrange(0, n);
        if a.len() < n {
            let k = a.len() as int;
            assert forall|j: int| 0 <= j < n - k implies from.skip(k)[j] == b.take(n - k)[j] by {
                assert(from[k + j] == head[k + j]);
            }
            assert(from.skip(k) == b.take(n - k));
        } else {
            assert(a.subrange(0, n) == head);
            assert((a + b).skip(n) == a.skip(n) + b);
            lemma_replace_concat(a.skip(n), b, from, to);
            assert(to + (replace(a.skip(n), from, to) + replace(b, from, to)) == (to + replace(
                a.skip(n),
                from,
                to,
            )) + replace(b, from, to));
        }
    } else {
        if occurs_at(a, from, 0) {
            assert((a + b).subrange(0, n) == a.subrange(0, n));
        }
        assert((a + b).skip(1) == a.skip(1) + b);
        lemma_replace_concat(a.skip(1), b, from, to);
        assert(seq![a[0]] + (replace(a.skip(1), from, to) + replace(b, from, to)) == (seq![a[0]]
            + replace(a.skip(1), from, to)) + replace(b, from, to));
    }
}

proof fn lemma_replace_nothing(s: Seq<char>, from: Seq<char>, to: Seq<char>)
    requires
        forall|i: int| !occurs_at(s, from, i),
    ensures
        replace(s, from, to) == s,
{
    lemma_nothing_to_replace(s, from, to);
}

/// What a short ending becomes in each of the spellings.
proof fn lemma_endings()
    ensures
        replace("str."@, "\u{df}"@, "ss"@) == "str."@,
        replace("strasse"@, "\u{df}"@, "ss"@) == "strasse"@,
        replace("stra\u{df}e"@, "\u{df}"@, "ss"@) == "strasse"@,
        replace("str."@, "strasse"@, "str"@) == "str."@,
        replace("strasse"@, "strasse"@, "str"@) == "str"@,
        replace("str."@, "stra\u{df}e"@, "str"@) == "str."@,
        replace("str"@, "stra\u{df}e"@, "str"@) == "str"@,
        replace("str."@, "str."@, "str"@) == "str"@,
        replace("str"@, "str."@, "str"@) == "str"@,
{
    reveal_strlit("str");
    reveal_strlit("str.");
    reveal_strlit("strasse");
    reveal_strlit("stra\u{df}e");
    reveal_strlit("\u{df}");
    reveal_strlit("ss");
    lemma_replace_nothing("str."@, "strasse"@, "str"@);
    lemma_replace_nothing("str."@, "stra\u{df}e"@, "str"@);
    lemma_replace_nothing("str"@, "stra\u{df}e"@, "str"@);
    lemma_replace_nothing("str"@, "str."@, "str"@);
    assert forall|s: Seq<char>, i: int| #![trigger occurs_at(s, "\u{df}"@, i)]
        occurs_at(s, "\u{df}"@, i) implies s[i] == '\u{df}' by {
        assert(s.subrange(i, i + 1)[0] == s[i]);
    }
    lemma_replace_nothing("str."@, "\u{df}"@, "ss"@);
    lemma_replace_nothing("strasse"@, "\u{df}"@, "ss"@);
    assert(replace(Seq::<char>::empty(), "strasse"@, "str"@) == Seq::<char>::empty());
    assert("strasse"@.subrange(0, 7) == "strasse"@);
    assert("strasse"@.skip(7) == Seq::<char>::empty());
    assert("str."@.subrange(0, 4) == "str."@);
    assert("str."@.skip(4) == Seq::<char>::empty());
    assert(replace(Seq::<char>::empty(), "str."@, "str"@) == Seq::<char>::empty());
    assert("str"@ + Seq::<char>::empty() == "str"@);
    let stra = "stra"@;
    reveal_strlit("stra");
    reveal_strlit("e");
    assert("stra\u{df}e"@ == stra + ("\u{df}"@ + "e"@));
    assert(no_overlap("\u{df}"@, "\u{df}"@ + "e"@));
    lemma_replace_concat(stra, "\u{df}"@ + "e"@, "\u{df}"@, "ss"@);
    lemma_replace_nothing(stra, "\u{df}"@, "ss"@);
    lemma_replace_nothing("e"@, "\u{df}"@, "ss"@);
    let rest = "\u{df}"@ + "e"@;
    assert(rest.subrange(0, 1) == "\u{df}"@);
    assert(rest.skip(1) == "e"@);
    assert(replace(rest, "\u{df}"@, "ss"@) == "ss"@ + "e"@);
    assert(stra + ("ss"@ + "e"@) == "strasse"@);
}

/// The three spellings of a street match: whatever a name starts with, it becomes the same
/// with `str.`, `strasse` and the sharp s behind it.
pub proof fn law_street_spellings_match(name: Seq<char>)
    ensures
        folded(name + "str."@) == folded(name + "strasse"@),
        folded(name + "stra\u{df}e"@) == folded(name + "strasse"@),
{
    reveal_strlit("str");
    reveal_strlit("str.");
    reveal_strlit("strasse");
    reveal_strlit("stra\u{df}e");
    reveal_strlit("\u{df}");
    lemma_endings();
    let a = replace(name, "\u{df}"@, "ss"@);
    let b = replace(a, "strasse"@, "str"@);
    let c = replace(b, "stra\u{df}e"@, "str"@);
    lemma_replace_concat(name, "str."@, "\u{df}"@, "ss"@);
    lemma_replace_concat(name, "strasse"@, "\u{df}"@, "ss"@);
    lemma_replace_concat(name, "stra\u{df}e"@, "\u{df}"@, "ss"@);
    assert(no_overlap("strasse"@, "str."@)) by {
        assert forall|k: int| 1 <= k < 7 && 7 - k <= 4 implies #[trigger] "strasse"@.skip(k)
            != "str."@.take(7 - k) by {
            assert("strasse"@.skip(k)[0] == "strasse"@[k]);
            assert("str."@.take(7 - k)[0] == 's');
            if k == 4 || k == 5 {
                assert("strasse"@.skip(k)[1] == "strasse"@[k + 1]);
                assert("str."@.take(7 - k)[1] == 't');
            }
        }
    }
    assert(no_overlap("strasse"@, "strasse"@)) by {
        assert forall|k: int| 1 <= k < 7 && 7 - k <= 7 implies #[trigger] "strasse"@.skip(k)
            != "strasse"@.take(7 - k) by {
            assert("strasse"@.skip(k)[0] == "strasse"@[k]);
            assert("strasse"@.take(7 - k)[0] == 's');
            if k == 4 || k == 5 {
                assert("strasse"@.skip(k)[1] == "strasse"@[k + 1]);
                assert("strasse"@.take(7 - k)[1] == 't');
            }
        }
    }
    lemma_replace_concat(a, "str."@, "strasse"@, "str"@);
    lemma_replace_concat(a, "strasse"@, "strasse"@, "str"@);
    lemma_first_only("stra\u{df}e"@, "str."@);
    lemma_first_only("stra\u{df}e"@, "str"@);
    lemma_first_only("str."@, "str."@);
    lemma_first_only("str."@, "str"@);
    lemma_replace_concat(b, "str."@, "stra\u{df}e"@, "str"@);
    lemma_replace_concat(b, "str"@, "stra\u{df}e"@, "str"@);
    lemma_replace_concat(c, "str."@, "str."@, "str"@);
    lemma_replace_concat(c, "str"@, "str."@, "str"@);
}

/// A text whose first character does not come again in it overlaps with nothing that
/// starts with that character.
proof fn lemma_first_only(from: Seq<char>, behind: Seq<char>)
    requires
        from.len() > 0,
        behind.len() > 0,
        behind[0] == from[0],
        forall|k: int| 1 <= k < from.len() ==> #[trigger] from[k] != from[0],
    ensures
        no_overlap(from, behind),
{
    assert forall|k: int|
        1 <= k < from.len() && from.len() - k <= behind.len() implies #[trigger] from.skip(k)
        != behind.take(from.len() - k) by {
        assert(from.skip(k)[0] == from[k]);
        assert(behind.take(from.len() - k)[0] == behind[0]);
    }
}

/// Two headlines share as many significant words as the other way round: at most eight,
/// and at most as many as each of them has. A headline shares all of its words with
/// itself, each counted once.
pub proof fn law_shared_words(a: Seq<char>, b: Seq<char>)
    ensures
        overlap(a, b) == overlap(b, a),
        overlap(a, b) <= overlap(a, a),
        overlap(a, b) <= overlap(b, b),
        overlap(a, b) <= 8,
        overlap(a, a) == title_words(a).to_set().len(),
{
    broadcast use vstd::seq_lib::seq_to_set_is_finite;

    let x = title_words(a).to_set();
    let y = title_words(b).to_set();
    assert(x.intersect(y) =~= y.intersect(x));
    assert(x.intersect(x) =~= x);
    assert(y.intersect(y) =~= y);
    vstd::set_lib::lemma_len_intersect(x, y);
    vstd::set_lib::lemma_len_intersect(y, x);
    title_words(a).lemma_cardinality_of_set();
}

/// As many words are counted as stand in the text.
pub proof fn law_hits_are_counted(ws: Seq<Seq<char>>, hay: Seq<char>)
    ensures
        hits(ws, hay) == ws.filter(|w: Seq<char>| occurs(hay, w)).len(),
    decreases ws.len(),
{
    reveal(Seq::filter);
    if ws.len() > 0 {
        law_hits_are_counted(ws.drop_last(), hay);
    }
}

proof fn lemma_hits_upto(ws: Seq<Seq<char>>, hay: Seq<char>, i: int)
    requires
        0 <= i < ws.len(),
        occurs(hay, ws[i]),
    ensures
        hits(ws, hay) >= 1,
    decreases ws.len(),
{
    if i < ws.len() - 1 {
        lemma_hits_upto(ws.drop_last(), hay, i);
    }
}

proof fn lemma_two_hits(ws: Seq<Seq<char>>, hay: Seq<char>, i: int, j: int)
    requires
        0 <= i < j < ws.len(),
        occurs(hay, ws[i]),
        occurs(hay, ws[j]),
    ensures
        hits(ws, hay) >= 2,
    decreases ws.len(),
{
    if j < ws.len() - 1 {
        lemma_two_hits(ws.drop_last(), hay, i, j);
    } else {
        lemma_hits_upto(ws.drop_last(), hay, i);
    }
}

proof fn lemma_no_hits(ws: Seq<Seq<char>>, hay: Seq<char>, j: int)
    requires
        forall|i: int| 0 <= i < ws.len() && i != j ==> !occurs(hay, #[trigger] ws[i]),
    ensures
        hits(ws, hay) <= 1,
        !(0 <= j < ws.len()) ==> hits(ws, hay) == 0,
    decreases ws.len(),
{
    if ws.len() > 0 {
        lemma_no_hits(ws.drop_last(), hay, j);
        if j == ws.len() - 1 {
            lemma_no_hits(ws.drop_last(), hay, -1);
        }
    }
}

/// A text with two of the words of a headline in it is about that headline, whichever they
/// are. One that has at most one of three or more words, or none of two, is not.
pub proof fn law_two_words_make_a_match(text: Seq<char>, title: Seq<char>, i: int, j: int)
    ensures
        0 <= i < j < title_words(title).len() && occurs(normalized(text), title_words(title)[i])
            && occurs(normalized(text), title_words(title)[j]) ==> is_about(text, title),
        title_words(title).len() >= 3 && (forall|k: int|
            0 <= k < title_words(title).len() && k != j ==> !occurs(
                normalized(text),
                #[trigger] title_words(title)[k],
            )) ==> !is_about(text, title),
        title_words(title).len() == 2 ==> (is_about(text, title) <==> occurs(
            normalized(text),
            title_words(title)[0],
        ) || occurs(normalized(text), title_words(title)[1])),
        title_words(title).len() < 2 ==> is_about(text, title),
{
    let ws = title_words(title);
    let hay = normalized(text);
    if 0 <= i < j < ws.len() && occurs(hay, ws[i]) && occurs(hay, ws[j]) {
        lemma_two_hits(ws, hay, i, j);
    }
    if forall|k: int| 0 <= k < ws.len() && k != j ==> !occurs(hay, #[trigger] ws[k]) {
        lemma_no_hits(ws, hay, j);
    }
    if ws.len() == 2 {
        if occurs(hay, ws[0]) {
            lemma_hits_upto(ws, hay, 0);
        } else if occurs(hay, ws[1]) {
            lemma_hits_upto(ws, hay, 1);
        } else {
            lemma_no_hits(ws, hay, -1);
        }
    }
}

proof fn lemma_significant(ws: Seq<Seq<char>>)
    ensures
        forall|k: int|
            0 <= k < significant(ws).len() ==> is_significant(#[trigger] significant(ws)[k])
                && comes_from(significant(ws)[k], ws),
        forall|i: int|
            0 <= i < ws.len() && is_significant(
                trim(#[trigger] ws[i], CharClass::NotAlphanumeric),
            ) ==> significant(ws).contains(trim(ws[i], CharClass::NotAlphanumeric)),
    decreases ws.len(),
{
    if ws.len() > 0 {
        let rest = ws.skip(1);
        let all = significant(ws);
        let more = significant(rest);
        let w = trim(ws[0], CharClass::NotAlphanumeric);
        let n: int = if is_significant(w) {
            1
        } else {
            0
        };
        lemma_significant(rest);
        assert forall|k: int| 0 <= k < all.len() implies is_significant(#[trigger] all[k])
            && comes_from(all[k], ws) by {
            if k >= n {
                assert(all[k] == more[k - n]);
                let i = choose|i: int|
                    0 <= i < rest.len() && trim(#[trigger] rest[i], CharClass::NotAlphanumeric)
                        == more[k - n];
                assert(ws[i + 1] == rest[i]);
            } else {
                assert(trim(ws[0], CharClass::NotAlphanumeric) == all[k]);
            }
        }
        assert forall|i: int|
            0 <= i < ws.len() && is_significant(
                trim(#[trigger] ws[i], CharClass::NotAlphanumeric),
            ) implies all.contains(trim(ws[i], CharClass::NotAlphanumeric)) by {
            let x = trim(ws[i], CharClass::NotAlphanumeric);
            if i > 0 {
                assert(rest[i - 1] == ws[i]);
                let k = choose|k: int| 0 <= k < more.len() && more[k] == x;
                assert(all[k + n] == x);
            } else {
                assert(all[0] == x);
            }
        }
    }
}

/// Whether a word is one of the words without the punctuation around it.
pub open spec fn comes_from(w: Seq<char>, ws: Seq<Seq<char>>) -> bool {
    exists|i: int| 0 <= i < ws.len() && trim(#[trigger] ws[i], CharClass::NotAlphanumeric) == w
}

/// Whether a word is long enough and none of those that stand in every headline.
pub open spec fn tells_apart(w: Seq<char>) -> bool {
    w.len() >= 5 && w != "berlin"@ && w != "polizei"@ && w != "meldung"@ && w != "update"@ && w
        != "heute"@
}

/// The words of a headline that count are words of it in normal spelling, without punctuation,
/// of at least five letters, and none of the common ones; at most eight of them. With fewer
/// than eight no such word is left out.
pub proof fn law_words_that_count(title: Seq<char>)
    ensures
        title_words(title).len() <= 8,
        forall|k: int|
            0 <= k < title_words(title).len() ==> tells_apart(#[trigger] title_words(title)[k])
                && comes_from(title_words(title)[k], words(normalized(title))),
        title_words(title).len() < 8 ==> forall|i: int|
            0 <= i < words(normalized(title)).len() && tells_apart(
                trim(#[trigger] words(normalized(title))[i], CharClass::NotAlphanumeric),
            ) ==> title_words(title).contains(
                trim(words(normalized(title))[i], CharClass::NotAlphanumeric),
            ),
{
    let ws = words(normalized(title));
    lemma_significant(ws);
    let all = significant(ws);
    assert forall|k: int| 0 <= k < title_words(title).len() implies tells_apart(
        #[trigger] title_words(title)[k],
    ) && comes_from(title_words(title)[k], ws) by {
        assert(title_words(title)[k] == all[k]);
    }
}

/// Whether a mark of the boilerplate below an article stands in a text at a byte position.
pub open spec fn boilerplate_at(lower: Seq<u8>, i: int) -> bool {
    ||| occurs_at(lower, encode_utf8("impressum"@), i)
    ||| occurs_at(lower, encode_utf8("kontakt"@), i)
    ||| occurs_at(lower, encode_utf8("datenschutz"@), i)
    ||| occurs_at(lower, encode_utf8("newsletter"@), i)
    ||| occurs_at(lower, encode_utf8("pressekontakt"@), i)
}

spec fn mark_at(lower: Seq<u8>, marks: Seq<Seq<char>>, i: int) -> bool {
    exists|k: int| 0 <= k < marks.len() && occurs_at(lower, encode_utf8(#[trigger] marks[k]), i)
}

proof fn lemma_first_mark(lower: Seq<u8>, marks: Seq<Seq<char>>)
    ensures
        match first_mark(lower, marks) {
            Some(at) => at >= 0 && mark_at(lower, marks, at) && forall|i: int|
                i < at ==> !#[trigger] mark_at(lower, marks, i),
            None => forall|i: int| !#[trigger] mark_at(lower, marks, i),
        },
    decreases marks.len(),
{
    if marks.len() > 0 {
        let t = marks.drop_last();
        let m = encode_utf8(marks.last());
        lemma_first_mark(lower, t);
        lemma_find_from(lower, m, 0);
        assert forall|i: int| #[trigger] mark_at(lower, marks, i) == (mark_at(lower, t, i)
            || occurs_at(lower, m, i)) by {
            if mark_at(lower, marks, i) {
                let k = choose|k: int|
                    0 <= k < marks.len() && occurs_at(lower, encode_utf8(#[trigger] marks[k]), i);
                if k < t.len() {
                    assert(t[k] == marks[k]);
                }
            }
            if mark_at(lower, t, i) {
                let k = choose|k: int|
                    0 <= k < t.len() && occurs_at(lower, encode_utf8(#[trigger] t[k]), i);
                assert(t[k] == marks[k]);
            }
            if occurs_at(lower, m, i) {
                assert(occurs_at(lower, encode_utf8(marks[marks.len() - 1]), i));
            }
        }
    }
}

proof fn lemma_boilerplate(lower: Seq<u8>, i: int)
    ensures
        mark_at(lower, boilerplate_marks(), i) == boilerplate_at(lower, i),
{
    let marks = boilerplate_marks();
    assert(marks.len() == 5 && marks[0] == "impressum"@ && marks[1] == "kontakt"@ && marks[2]
        == "datenschutz"@ && marks[3] == "newsletter"@ && marks[4] == "pressekontakt"@);
    if boilerplate_at(lower, i) {
        assert(occurs_at(lower, encode_utf8(marks[0]), i) || occurs_at(
            lower,
            encode_utf8(marks[1]),
            i,
        ) || occurs_at(lower, encode_utf8(marks[2]), i) || occurs_at(
            lower,
            encode_utf8(marks[3]),
            i,
        ) || occurs_at(lower, encode_utf8(marks[4]), i));
    }
}

/// The relevant part of an article is its beginning. It ends before the first mark of the
/// boilerplate, right there if the article can be cut there, and without such a mark it is the
/// whole article.
#[verifier::rlimit(40)]
pub proof fn law_boilerplate_is_cut_off(article: Seq<char>, lower: Seq<char>, i: int)
    ensures
        ({
            let b = encode_utf8(article);
            let part = encode_utf8(relevant(article, lower));
            &&& part.len() <= b.len() && part == b.take(part.len() as int)
            &&& boilerplate_at(encode_utf8(lower), i) ==> part.len() <= i
            &&& (forall|j: int| !#[trigger] boilerplate_at(encode_utf8(lower), j)) ==> relevant(
                article,
                lower,
            ) == article
            &&& boilerplate_at(encode_utf8(lower), i) && is_char_boundary(b, i) && (forall|j: int|
                j < i ==> !#[trigger] boilerplate_at(encode_utf8(lower), j)) ==> part.len() == i
        }),
{
    let b = encode_utf8(article);
    let l = encode_utf8(lower);
    lemma_first_mark(l, boilerplate_marks());
    assert forall|j: int| #[trigger] mark_at(l, boilerplate_marks(), j) == boilerplate_at(l, j) by {
        lemma_boilerplate(l, j);
    }
    let end = match first_mark(l, boilerplate_marks()) {
        Some(at) => at,
        None => b.len() as int,
    };
    let n = boundary_below(b, end);
    lemma_decode_of(article);
    lemma_boundary_below(b, end);
    lemma_boundary_not_above(b, end);
    vstd::utf8::valid_utf8_split(b, n);
    vstd::utf8::decode_utf8_encode_utf8(b.subrange(0, n));
    assert(encode_utf8(relevant(article, lower)) == b.subrange(0, n));
    assert(b.take(n) == b.subrange(0, n));
    vstd::utf8::is_char_boundary_start_end_of_seq(b);
    assert(b.subrange(0, b.len() as int) == b);
    if first_mark(l, boilerplate_marks()) is Some {
        assert(boilerplate_at(l, end));
        if boilerplate_at(l, i) && i < end {
            assert(mark_at(l, boilerplate_marks(), i));
        }
        if i > end {
            assert(boilerplate_at(l, end));
        }
    } else {
        assert(!mark_at(l, boilerplate_marks(), i));
        if b.len() == 0 {
            assert(n == 0);
        }
    }
}

proof fn lemma_boundary_not_above(b: Seq<u8>, i: int)
    requires
        0 <= i,
    ensures
        boundary_below(b, i) <= i,
        is_char_boundary(b, i) ==> boundary_below(b, i) == i,
    decreases i,
{
    if i > 0 && !is_char_boundary(b, i) {
        lemma_boundary_not_above(b, i - 1);
    }
}

/// A text has one of some terms in it exactly if any of them, wherever it is listed, stands in
/// it, each in normal spelling.
pub proof fn law_any_term_is_enough(text: Seq<char>, terms: Seq<Seq<char>>, i: int)
    ensures
        0 <= i < terms.len() && occurs(normalized(text), normalized(terms[i])) ==> any_normalized(
            text,
            terms,
        ),
        (forall|j: int|
            0 <= j < terms.len() ==> !occurs(normalized(text), normalized(#[trigger] terms[j])))
            ==> !any_normalized(text, terms),
{
}

} // verus!

//! Street names in news texts.

use vstd::prelude::*;
use vstd::utf8::encode_utf8;

use crate::bytes::{byte_len, lemma_encode_concat};
use crate::text::{
    chars_of, copy_range, ends_with, has_suffix, is_blank, join, join_of,
    law_blank_texts_have_no_words, lemma_join_first, lowercase, occurs, occurs_at, same_str, split,
    split_of, starts_with, str_same, string_of, trim_end, trim_end_of, trim_of, trimmed, words,
    words_of, CharClass,
};
use crate::words::{
    any_normalized, at_most, contains_any_normalized, first_relevant_article_text, is_listed,
    key_is_listed, lowered, normalized, relevant, relevant_text,
};

verus! {

// ---------------------------------------------------------------------------
// Candidates
// ---------------------------------------------------------------------------

/// What German street names end in.
pub open spec fn street_endings() -> Seq<Seq<char>> {
    seq![
        "straße"@,
        "strasse"@,
        "str."@,
        "allee"@,
        "weg"@,
        "platz"@,
        "ring"@,
        "damm"@,
        "gasse"@,
        "chaussee"@,
        "ufer"@,
        "brücke"@,
        "brucke"@,
        "steg"@,
    ]
}

/// Words that no street name starts with.
pub open spec fn leading_words() -> Seq<Seq<char>> {
    seq![
        "auf"@,
        "der"@,
        "die"@,
        "das"@,
        "dem"@,
        "den"@,
        "des"@,
        "ein"@,
        "eine"@,
        "einen"@,
        "am"@,
        "im"@,
        "zur"@,
        "zum"@,
        "vom"@,
        "von"@,
        "an"@,
        "in"@,
        "zu"@,
        "bei"@,
        "nach"@,
        "über"@,
        "unter"@,
        "vor"@,
        "durch"@,
        "entlang"@,
        "bis"@,
        "um"@,
        "seit"@,
        "ab"@,
        "außer"@,
        "gegenüber"@,
        "nahe"@,
        "und"@,
        "oder"@,
        "sowie"@,
        "bzw"@,
        "einem"@,
        "einer"@,
        "eines"@,
    ]
}

/// A lowercase word without the commas, and then without the full stops, at its
/// end.
pub open spec fn bare(lower: Seq<char>) -> Seq<char> {
    trim_end(trim_end(lower, CharClass::Only(',')), CharClass::Only('.'))
}

/// Whether a word ends in one of the endings.
pub open spec fn ends_in_any(w: Seq<char>, endings: Seq<Seq<char>>) -> bool {
    exists|i: int| 0 <= i < endings.len() && ends_with(w, #[trigger] endings[i])
}

/// The position of the first word, from `from` on and before `to`, that a street
/// name can start with, given the words in lowercase.
pub open spec fn name_start(lowers: Seq<Seq<char>>, from: int, to: int) -> int
    decreases to - from,
{
    if from < to && leading_words().contains(bare(lowers[from])) {
        name_start(lowers, from + 1, to)
    } else {
        from
    }
}

/// Whether a word is a house number: at most four bytes long, with a digit in
/// front.
pub open spec fn is_house_number(w: Seq<char>) -> bool {
    encode_utf8(w).len() <= 4 && w.len() > 0 && '0' <= w[0] <= '9'
}

/// Words without the punctuation at their ends, joined by spaces.
pub open spec fn joined_bare(ws: Seq<Seq<char>>) -> Seq<char> {
    join(ws.map_values(|w: Seq<char>| trim_end(w, CharClass::WordEnd)), " "@)
}

/// The words of the street name that ends with word `i`, with the house number
/// behind it. A name has at most two words before the one with the ending.
pub open spec fn name_parts(ws: Seq<Seq<char>>, lowers: Seq<Seq<char>>, i: int) -> Seq<Seq<char>> {
    let from = if i < 2 {
        0
    } else {
        i - 2
    };
    let parts = ws.subrange(name_start(lowers, from, i + 1), i + 1);
    if i + 1 < ws.len() {
        let next = trim_end(ws[i + 1], CharClass::Only(','));
        if is_house_number(next) {
            parts.push(next)
        } else {
            parts
        }
    } else {
        parts
    }
}

/// The street name that ends with word `i`, if there is one, given the words
/// and the words in lowercase.
pub open spec fn street_at(ws: Seq<Seq<char>>, lowers: Seq<Seq<char>>, i: int) -> Option<Seq<char>> {
    let from = if i < 2 {
        0
    } else {
        i - 2
    };
    let start = name_start(lowers, from, i + 1);
    if !ends_in_any(bare(lowers[i]), street_endings()) {
        None
    } else if start > i {
        None
    } else if start == i && street_endings().contains(bare(lowers[i])) {
        None
    } else {
        let name = joined_bare(name_parts(ws, lowers, i));
        if encode_utf8(name).len() >= 5 {
            Some(name)
        } else {
            None
        }
    }
}

/// The street names that end in the first `n` words, each once.
pub open spec fn streets_upto(ws: Seq<Seq<char>>, n: int) -> Seq<Seq<char>>
    decreases n,
{
    if n <= 0 {
        seq![]
    } else {
        let names = streets_upto(ws, n - 1);
        match street_at(ws, lowered(ws), n - 1) {
            Some(name) => if is_listed(names, name) {
                names
            } else {
                names.push(name)
            },
            None => names,
        }
    }
}

/// The street names in a text, each once.
pub open spec fn street_names(text: Seq<char>) -> Seq<Seq<char>> {
    streets_upto(words(text), words(text).len() as int)
}

fn endings() -> (r: Vec<&'static str>)
    ensures
        r.deep_view() == street_endings(),
{
    let v = vec![
        "straße", "strasse", "str.", "allee", "weg", "platz", "ring", "damm", "gasse", "chaussee",
        "ufer", "brücke", "brucke", "steg",
    ];
    assert(v.deep_view() =~= street_endings());
    v
}

fn leading() -> (r: Vec<&'static str>)
    ensures
        r.deep_view() == leading_words(),
{
    let v = vec![
        "auf", "der", "die", "das", "dem", "den", "des", "ein", "eine", "einen", "am", "im", "zur",
        "zum", "vom", "von", "an", "in", "zu", "bei", "nach", "über", "unter", "vor", "durch",
        "entlang", "bis", "um", "seit", "ab", "außer", "gegenüber", "nahe", "und", "oder", "sowie",
        "bzw", "einem", "einer", "eines",
    ];
    assert(v.deep_view() =~= leading_words());
    v
}

fn bare_of(lower: &[char]) -> (r: Vec<char>)
    ensures
        r@ == bare(lower@),
{
    let t = trim_end_of(lower, CharClass::Only(','));
    trim_end_of(t.as_slice(), CharClass::Only('.'))
}

fn is_one_of(w: &[char], list: &Vec<&str>) -> (r: bool)
    ensures
        r == list.deep_view().contains(w@),
{
    let n: usize = list.len();
    let mut i: usize = 0;
    while i < n
        invariant
            0 <= i <= n,
            n == list@.len(),
            forall|j: int| 0 <= j < i ==> #[trigger] list.deep_view()[j] != w@,
        decreases n - i,
    {
        if same_str(w, list[i]) {
            assert(list.deep_view()[i as int] == w@);
            return true;
        }
        i += 1;
    }
    false
}

fn ends_in_one_of(w: &[char], list: &Vec<&str>) -> (r: bool)
    ensures
        r == ends_in_any(w@, list.deep_view()),
{
    let n: usize = list.len();
    let mut i: usize = 0;
    while i < n
        invariant
            0 <= i <= n,
            n == list@.len(),
            forall|j: int| 0 <= j < i ==> !ends_with(w@, #[trigger] list.deep_view()[j]),
        decreases n - i,
    {
        if has_suffix(w, list[i]) {
            assert(ends_with(w@, list.deep_view()[i as int]));
            return true;
        }
        i += 1;
    }
    false
}

fn house_number(w: &[char]) -> (r: bool)
    ensures
        r == is_house_number(w@),
{
    let text = string_of(w);
    byte_len(text.as_str()) <= 4 && w.len() > 0 && '0' <= w[0] && w[0] <= '9'
}

fn joined_bare_of(ws: &Vec<Vec<char>>) -> (r: Vec<char>)
    ensures
        r@ == joined_bare(ws.deep_view()),
{
    let n: usize = ws.len();
    let mut out: Vec<Vec<char>> = Vec::new();
    let mut i: usize = 0;
    let ghost target = ws.deep_view().map_values(|w: Seq<char>| trim_end(w, CharClass::WordEnd));
    while i < n
        invariant
            0 <= i <= n,
            n == ws@.len(),
            target == ws.deep_view().map_values(
                |w: Seq<char>| trim_end(w, CharClass::WordEnd),
            ),
            out.deep_view() == target.take(i as int),
        decreases n - i,
    {
        let ghost before = out.deep_view();
        let t = trim_end_of(ws[i].as_slice(), CharClass::WordEnd);
        out.push(t);
        assert(out.deep_view() == before.push(t@)) by {
            assert(t.deep_view() == t@);
        }
        assert(ws.deep_view()[i as int] == ws@[i as int]@);
        assert(target[i as int] == t@);
        assert(target.take(i + 1) == target.take(i as int).push(t@));
        i += 1;
    }
    assert(target.take(n as int) == target);
    join_of(&out, " ")
}

/// The street name that ends with word `i`, if there is one, given the words
/// and the words in lowercase.
pub fn street_ending_at(ws: &Vec<Vec<char>>, lowers: &Vec<Vec<char>>, i: usize) -> (r: Option<
    Vec<char>,
>)
    requires
        i < ws@.len(),
        ws@.len() == lowers@.len(),
    ensures
        match r {
            Some(name) => street_at(ws.deep_view(), lowers.deep_view(), i as int) == Some(name@),
            None => street_at(ws.deep_view(), lowers.deep_view(), i as int) is None,
        },
{
    let ghost all = ws.deep_view();
    let ghost low = lowers.deep_view();
    let ending_list = endings();
    let leading_list = leading();
    let last = bare_of(lowers[i].as_slice());
    assert(low[i as int] == lowers@[i as int]@);
    if !ends_in_one_of(last.as_slice(), &ending_list) {
        return None;
    }
    let from: usize = if i < 2 {
        0
    } else {
        i - 2
    };
    let mut start: usize = from;
    loop
        invariant
            from <= start <= i + 1,
            i < lowers.len(),
            lowers.len() == lowers@.len(),
            low == lowers.deep_view(),
            leading_list.deep_view() == leading_words(),
            name_start(low, from as int, i + 1) == name_start(low, start as int, i + 1),
        ensures
            from <= start <= i + 1,
            start == name_start(low, from as int, i + 1),
        decreases i + 1 - start,
    {
        if start > i {
            break;
        }
        assert(low[start as int] == lowers@[start as int]@);
        let head = bare_of(lowers[start].as_slice());
        if !is_one_of(head.as_slice(), &leading_list) {
            break;
        }
        start += 1;
    }
    if start > i {
        return None;
    }
    if start == i && is_one_of(last.as_slice(), &ending_list) {
        return None;
    }
    let mut parts: Vec<Vec<char>> = Vec::new();
    let mut k: usize = start;
    while k <= i
        invariant
            start <= k <= i + 1,
            i < ws.len(),
            ws.len() == ws@.len(),
            all == ws.deep_view(),
            parts.deep_view() == all.subrange(start as int, k as int),
        decreases i + 1 - k,
    {
        let ghost before = parts.deep_view();
        let w = copy_range(ws[k].as_slice(), 0, ws[k].len());
        assert(w@ == ws@[k as int]@);
        parts.push(w);
        assert(parts.deep_view() == before.push(w@)) by {
            assert(w.deep_view() == w@);
        }
        assert(all[k as int] == w@);
        assert(all.subrange(start as int, k + 1) == all.subrange(start as int, k as int).push(w@));
        k += 1;
    }
    if i + 1 < ws.len() {
        assert(all[i + 1] == ws@[i + 1]@);
        let next = trim_end_of(ws[i + 1].as_slice(), CharClass::Only(','));
        if house_number(next.as_slice()) {
            let ghost before = parts.deep_view();
            parts.push(next);
            assert(parts.deep_view() == before.push(next@)) by {
                assert(next.deep_view() == next@);
            }
        }
    }
    assert(parts.deep_view() == name_parts(all, low, i as int));
    let name = joined_bare_of(&parts);
    let text = string_of(name.as_slice());
    if byte_len(text.as_str()) >= 5 {
        Some(name)
    } else {
        None
    }
}

fn lowered_of(ws: &Vec<Vec<char>>) -> (r: Vec<Vec<char>>)
    ensures
        r.deep_view() == lowered(ws.deep_view()),
{
    let n: usize = ws.len();
    let ghost target = lowered(ws.deep_view());
    let mut out: Vec<Vec<char>> = Vec::new();
    let mut i: usize = 0;
    while i < n
        invariant
            0 <= i <= n,
            n == ws@.len(),
            target == lowered(ws.deep_view()),
            out.deep_view() == target.take(i as int),
        decreases n - i,
    {
        let ghost before = out.deep_view();
        let w = string_of(ws[i].as_slice());
        let low = w.as_str().to_lowercase();
        let c = chars_of(low.as_str());
        out.push(c);
        assert(out.deep_view() == before.push(c@)) by {
            assert(c.deep_view() == c@);
        }
        assert(ws.deep_view()[i as int] == ws@[i as int]@);
        assert(target[i as int] == c@);
        assert(target.take(i + 1) == target.take(i as int).push(c@));
        i += 1;
    }
    assert(target.take(n as int) == target);
    out
}

/// The street names in a text, each once, whatever its case.
pub fn extract_street_candidates(text: &str) -> (r: Vec<String>)
    ensures
        r.deep_view() == street_names(text@),
{
    let c = chars_of(text);
    let ws = words_of(c.as_slice());
    let lowers = lowered_of(&ws);
    let ghost all = ws.deep_view();
    let n: usize = ws.len();
    let mut keys: Vec<String> = Vec::new();
    let mut out: Vec<String> = Vec::new();
    let mut i: usize = 0;
    assert(lowers@.len() == lowers.deep_view().len());
    assert(keys.deep_view() == lowered(out.deep_view()));
    while i < n
        invariant
            0 <= i <= n,
            n == ws@.len(),
            n == lowers@.len(),
            all == ws.deep_view(),
            lowers.deep_view() == lowered(all),
            keys.deep_view() == lowered(out.deep_view()),
            out.deep_view() == streets_upto(all, i as int),
        decreases n - i,
    {
        match street_ending_at(&ws, &lowers, i) {
            Some(name) => {
                let candidate = string_of(name.as_slice());
                let key = candidate.as_str().to_lowercase();
                if !key_is_listed(&keys, &key) {
                    let ghost before = out.deep_view();
                    let ghost keys0 = keys.deep_view();
                    out.push(candidate);
                    keys.push(key);
                    assert(out.deep_view() == before.push(name@)) by {
                        assert(candidate.deep_view() == candidate@);
                    }
                    assert(keys.deep_view() == keys0.push(lowercase(name@))) by {
                        assert(key.deep_view() == key@);
                    }
                    assert(lowered(before.push(name@)) == lowered(before).push(lowercase(name@)));
                }
            },
            None => {},
        }
        i += 1;
    }
    out
}

// ---------------------------------------------------------------------------
// Evidence
// ---------------------------------------------------------------------------

/// A street name and how sure it is that something happened there.
pub struct StreetEvidence {
    /// The street, with the house number where there is one.
    pub candidate: String,
    /// How sure it is; higher is surer.
    pub confidence: i32,
}

/// What is written where something happened.
pub open spec fn event_terms() -> Seq<Seq<char>> {
    seq![
        "brand"@,
        "feuer"@,
        "unfall"@,
        "verletz"@,
        "polizei"@,
        "sperr"@,
        "einsatz"@,
        "warnung"@,
        "raub"@,
        "diebstahl"@,
        "überfall"@,
        "messer"@,
        "schuss"@,
        "verkehr"@,
        "störung"@,
        "rettung"@,
        "evaku"@,
        "gefähr"@,
    ]
}

/// How sure a street name in a section of an item is: surest in the title, less
/// so in the description and least in the article; surer where the section
/// speaks of an event.
pub open spec fn confidence_of(section: Seq<char>, text: Seq<char>) -> int {
    (if section == "title"@ {
        4int
    } else if section == "description"@ {
        3
    } else {
        2
    }) + (if any_normalized(text, event_terms()) {
        2int
    } else {
        0
    })
}

/// How sure a street name in a section of an item is.
pub fn street_confidence(section: &str, text: &str) -> (r: i32)
    ensures
        r == confidence_of(section@, text@),
{
    let terms = vec![
        "brand", "feuer", "unfall", "verletz", "polizei", "sperr", "einsatz", "warnung", "raub",
        "diebstahl", "überfall", "messer", "schuss", "verkehr", "störung", "rettung", "evaku",
        "gefähr",
    ];
    let list = terms.as_slice();
    assert(list.deep_view() =~= event_terms());
    let base: i32 = if str_same(section, "title") {
        4
    } else if str_same(section, "description") {
        3
    } else {
        2
    };
    if contains_any_normalized(text, list) {
        base + 2
    } else {
        base
    }
}

/// Evidence as pairs of a name and a confidence.
pub open spec fn evidence_view(e: Seq<StreetEvidence>) -> Seq<(Seq<char>, int)> {
    e.map_values(|x: StreetEvidence| (x.candidate@, x.confidence as int))
}

/// The names in evidence.
pub open spec fn names_of(e: Seq<(Seq<char>, int)>) -> Seq<Seq<char>> {
    e.map_values(|x: (Seq<char>, int)| x.0)
}

/// Evidence with more names of one confidence; names that are in it already
/// stay as they are.
pub open spec fn with_names(e: Seq<(Seq<char>, int)>, names: Seq<Seq<char>>, confidence: int) -> Seq<
    (Seq<char>, int),
>
    decreases names.len(),
{
    if names.len() == 0 {
        e
    } else {
        let before = with_names(e, names.drop_last(), confidence);
        if is_listed(names_of(before), names.last()) {
            before
        } else {
            before.push((names.last(), confidence))
        }
    }
}

/// Evidence with the names in a section.
pub open spec fn with_section(e: Seq<(Seq<char>, int)>, section: Seq<char>, text: Seq<char>) -> Seq<
    (Seq<char>, int),
> {
    if trimmed(text).len() == 0 {
        e
    } else {
        with_names(e, street_names(text), confidence_of(section, text))
    }
}

/// The text of a section that may be missing.
pub open spec fn text_or_empty(text: Option<&str>) -> Seq<char> {
    match text {
        Some(t) => t@,
        None => seq![],
    }
}

/// The street names in an item, each once, with the confidence of the first
/// section that it stands in.
pub open spec fn street_evidence(
    title: Seq<char>,
    description: Option<&str>,
    article: Option<&str>,
) -> Seq<(Seq<char>, int)> {
    let in_title = with_section(seq![], "title"@, title);
    let in_description = with_section(in_title, "description"@, text_or_empty(description));
    with_section(in_description, "article"@, relevant_text(article))
}

fn add_section(out: &mut Vec<StreetEvidence>, keys: &mut Vec<String>, section: &str, text: &str)
    requires
        old(keys).deep_view() == lowered(names_of(evidence_view(old(out)@))),
    ensures
        evidence_view(final(out)@) == with_section(evidence_view(old(out)@), section@, text@),
        final(keys).deep_view() == lowered(names_of(evidence_view(final(out)@))),
{
    if is_blank(text) {
        return;
    }
    let confidence: i32 = street_confidence(section, text);
    let found = extract_street_candidates(text);
    let ghost names = found.deep_view();
    let ghost e0 = evidence_view(out@);
    let n: usize = found.len();
    let mut i: usize = 0;
    assert(names.take(0) == Seq::<Seq<char>>::empty());
    while i < n
        invariant
            0 <= i <= n,
            n == found@.len(),
            names == found.deep_view(),
            keys.deep_view() == lowered(names_of(evidence_view(out@))),
            evidence_view(out@) == with_names(e0, names.take(i as int), confidence as int),
        decreases n - i,
    {
        let ghost before = evidence_view(out@);
        let ghost keys0 = keys.deep_view();
        let ghost name = names[i as int];
        assert(names.take(i + 1).drop_last() == names.take(i as int));
        assert(names.take(i + 1).last() == name);
        assert(name == found@[i as int]@);
        let key = found[i].as_str().to_lowercase();
        if !key_is_listed(keys, &key) {
            let candidate = found[i].clone();
            out.push(StreetEvidence { candidate, confidence });
            keys.push(key);
            assert(evidence_view(out@) == before.push((name, confidence as int)));
            assert(keys.deep_view() == keys0.push(lowercase(name))) by {
                assert(key.deep_view() == key@);
            }
            assert(lowered(names_of(before.push((name, confidence as int)))) == lowered(
                names_of(before),
            ).push(lowercase(name)));
        }
        i += 1;
    }
    assert(names.take(n as int) == names);
}

/// The street names in an item, each once, with the confidence of the first
/// section that it stands in. The boilerplate below an article does not count.
pub fn extract_street_evidence(
    title: &str,
    description: Option<&str>,
    article: Option<&str>,
) -> (r: Vec<StreetEvidence>)
    ensures
        evidence_view(r@) == street_evidence(title@, description, article),
{
    let mut out: Vec<StreetEvidence> = Vec::new();
    let mut keys: Vec<String> = Vec::new();
    let text = first_relevant_article_text(article);
    let summary = match description {
        Some(d) => d,
        None => "",
    };
    proof {
        reveal_strlit("");
        assert(summary@ == text_or_empty(description));
        assert(evidence_view(out@) == Seq::<(Seq<char>, int)>::empty());
        assert(keys.deep_view() == lowered(names_of(evidence_view(out@))));
    }
    add_section(&mut out, &mut keys, "title", title);
    add_section(&mut out, &mut keys, "description", summary);
    add_section(&mut out, &mut keys, "article", text);
    out
}

// ---------------------------------------------------------------------------
// Place names
// ---------------------------------------------------------------------------

/// The parts of an address that are not blank, without the white space around
/// them.
pub open spec fn address_parts(pieces: Seq<Seq<char>>) -> Seq<Seq<char>>
    decreases pieces.len(),
{
    if pieces.len() == 0 {
        seq![]
    } else {
        let before = address_parts(pieces.drop_last());
        let part = trimmed(pieces.last());
        if part.len() == 0 {
            before
        } else {
            before.push(part)
        }
    }
}

/// The first three parts of an address.
pub open spec fn short_label(display_name: Seq<char>) -> Option<Seq<char>> {
    let parts = address_parts(split(display_name, ','));
    if parts.len() == 0 {
        None
    } else {
        Some(join(at_most(parts, 3), ", "@))
    }
}

/// The first three parts of an address; `None` where it has none.
pub fn short_location_label(display_name: &str) -> (r: Option<String>)
    ensures
        r.deep_view() == short_label(display_name@),
{
    let c = chars_of(display_name);
    let pieces = split_of(c.as_slice(), ',');
    let ghost all = pieces.deep_view();
    let n: usize = pieces.len();
    let mut parts: Vec<Vec<char>> = Vec::new();
    let ghost mut full: Seq<Seq<char>> = seq![];
    let mut i: usize = 0;
    assert(all.take(0) == Seq::<Seq<char>>::empty());
    while i < n
        invariant
            0 <= i <= n,
            n == pieces@.len(),
            all == pieces.deep_view(),
            full == address_parts(all.take(i as int)),
            parts.deep_view() == at_most(full, 3),
        decreases n - i,
    {
        assert(all.take(i + 1).drop_last() == all.take(i as int));
        assert(all.take(i + 1).last() == pieces@[i as int]@);
        let part = trim_of(pieces[i].as_slice(), CharClass::Space);
        if part.len() > 0 {
            let ghost before = parts.deep_view();
            let ghost full0 = full;
            proof {
                full = full.push(part@);
                assert(parts.deep_view().len() == parts@.len());
            }
            if parts.len() < 3 {
                parts.push(part);
                assert(parts.deep_view() == before.push(part@)) by {
                    assert(part.deep_view() == part@);
                }
                assert(full.take(full.len() as int) == full);
            } else {
                assert(full.take(3) == at_most(full0, 3));
            }
        }
        i += 1;
    }
    assert(all.take(n as int) == all);
    proof {
        assert(parts.deep_view().len() == parts@.len());
    }
    if parts.len() == 0 {
        None
    } else {
        let label = join_of(&parts, ", ");
        Some(string_of(label.as_slice()))
    }
}

// ---------------------------------------------------------------------------
// Laws
// ---------------------------------------------------------------------------

/// Whether no name is listed twice, whatever the case.
pub open spec fn all_different(names: Seq<Seq<char>>) -> bool {
    forall|i: int, j: int|
        0 <= i < j < names.len() ==> lowercase(#[trigger] names[i]) != lowercase(#[trigger] names[j])
}

proof fn lemma_push_different(names: Seq<Seq<char>>, name: Seq<char>)
    requires
        all_different(names),
        !is_listed(names, name),
    ensures
        all_different(names.push(name)),
{
    let more = names.push(name);
    assert forall|i: int, j: int| 0 <= i < j < more.len() implies lowercase(#[trigger] more[i])
        != lowercase(#[trigger] more[j]) by {
        if j == names.len() {
            assert(lowered(names)[i] == lowercase(names[i]));
        }
    }
}

proof fn lemma_streets_different(ws: Seq<Seq<char>>, n: int)
    ensures
        all_different(streets_upto(ws, n)),
        forall|i: int|
            0 <= i < streets_upto(ws, n).len() ==> encode_utf8(
                #[trigger] streets_upto(ws, n)[i],
            ).len() >= 5,
    decreases n,
{
    if n > 0 {
        lemma_streets_different(ws, n - 1);
        match street_at(ws, lowered(ws), n - 1) {
            Some(name) => if !is_listed(streets_upto(ws, n - 1), name) {
                lemma_push_different(streets_upto(ws, n - 1), name);
            },
            None => {},
        }
    }
}

/// The street names found in a text are all different, whatever their case, and
/// none of them is shorter than five bytes.
pub proof fn law_street_names_are_different(text: Seq<char>)
    ensures
        all_different(street_names(text)),
        forall|i: int|
            0 <= i < street_names(text).len() ==> encode_utf8(
                #[trigger] street_names(text)[i],
            ).len() >= 5,
{
    lemma_streets_different(words(text), words(text).len() as int);
}

proof fn lemma_with_names(e: Seq<(Seq<char>, int)>, names: Seq<Seq<char>>, confidence: int)
    requires
        all_different(names_of(e)),
    ensures
        all_different(names_of(with_names(e, names, confidence))),
        with_names(e, names, confidence).len() >= e.len(),
        with_names(e, names, confidence).take(e.len() as int) == e,
    decreases names.len(),
{
    if names.len() > 0 {
        let before = with_names(e, names.drop_last(), confidence);
        lemma_with_names(e, names.drop_last(), confidence);
        if !is_listed(names_of(before), names.last()) {
            lemma_push_different(names_of(before), names.last());
            let more = before.push((names.last(), confidence));
            assert(names_of(more) == names_of(before).push(names.last()));
            assert(more.take(e.len() as int) == before.take(e.len() as int));
        }
    } else {
        assert(e.take(e.len() as int) == e);
    }
}

/// No street is in the evidence twice, whatever its case, and what the title
/// gives comes first and keeps the confidence that it has there.
pub proof fn law_evidence_is_different(
    title: Seq<char>,
    description: Option<&str>,
    article: Option<&str>,
)
    ensures
        all_different(names_of(street_evidence(title, description, article))),
        ({
            let first = with_section(seq![], "title"@, title);
            let all = street_evidence(title, description, article);
            first.len() <= all.len() && all.take(first.len() as int) == first
        }),
{
    let none = Seq::<(Seq<char>, int)>::empty();
    let a = with_section(none, "title"@, title);
    let b = with_section(a, "description"@, text_or_empty(description));
    let c = with_section(b, "article"@, relevant_text(article));
    assert(all_different(names_of(none)));
    lemma_with_names(none, street_names(title), confidence_of("title"@, title));
    lemma_with_names(
        a,
        street_names(text_or_empty(description)),
        confidence_of("description"@, text_or_empty(description)),
    );
    lemma_with_names(
        b,
        street_names(relevant_text(article)),
        confidence_of("article"@, relevant_text(article)),
    );
    assert(b.take(a.len() as int) == a);
    assert(c.take(b.len() as int) == b);
    assert(c.take(a.len() as int) == c.take(b.len() as int).take(a.len() as int));
}

/// Whether a street is in evidence, whatever its case.
pub open spec fn is_in_evidence(e: Seq<(Seq<char>, int)>, name: Seq<char>) -> bool {
    exists|k: int| 0 <= k < e.len() && lowercase((#[trigger] e[k]).0) == lowercase(name)
}

proof fn lemma_listed_in_evidence(e: Seq<(Seq<char>, int)>, name: Seq<char>)
    ensures
        is_listed(names_of(e), name) == is_in_evidence(e, name),
{
    let keys = lowered(names_of(e));
    if keys.contains(lowercase(name)) {
        let k = choose|k: int| 0 <= k < keys.len() && keys[k] == lowercase(name);
        assert(lowercase(e[k].0) == lowercase(name));
    }
    if is_in_evidence(e, name) {
        let k = choose|k: int|
            0 <= k < e.len() && lowercase((#[trigger] e[k]).0) == lowercase(name);
        assert(keys[k] == lowercase(name));
    }
}

/// Names that are added to evidence are all in it, what was in it stays, and what is new has
/// the given confidence and one of the names.
proof fn lemma_names_are_added(e: Seq<(Seq<char>, int)>, names: Seq<Seq<char>>, confidence: int)
    ensures
        with_names(e, names, confidence).len() >= e.len(),
        forall|k: int| 0 <= k < e.len() ==> #[trigger] with_names(e, names, confidence)[k] == e[k],
        forall|k: int|
            e.len() <= k < with_names(e, names, confidence).len() ==> names.contains(
                (#[trigger] with_names(e, names, confidence)[k]).0,
            ) && with_names(e, names, confidence)[k].1 == confidence && !is_in_evidence(
                e,
                with_names(e, names, confidence)[k].0,
            ),
        forall|i: int|
            0 <= i < names.len() ==> is_in_evidence(
                with_names(e, names, confidence),
                #[trigger] names[i],
            ),
    decreases names.len(),
{
    if names.len() > 0 {
        let t = names.drop_last();
        let name = names.last();
        let before = with_names(e, t, confidence);
        let all = with_names(e, names, confidence);
        lemma_names_are_added(e, t, confidence);
        lemma_listed_in_evidence(before, name);
        assert forall|k: int| e.len() <= k < all.len() implies names.contains(
            (#[trigger] all[k]).0,
        ) && all[k].1 == confidence && !is_in_evidence(e, all[k].0) by {
            if k < before.len() {
                assert(all[k] == before[k]);
                let i = choose|i: int| 0 <= i < t.len() && t[i] == before[k].0;
                assert(names[i] == before[k].0);
            } else {
                assert(names[names.len() - 1] == name);
                if is_in_evidence(e, name) {
                    let j = choose|j: int|
                        0 <= j < e.len() && lowercase((#[trigger] e[j]).0) == lowercase(name);
                    assert(before[j] == e[j]);
                }
            }
        }
        assert forall|i: int| 0 <= i < names.len() implies is_in_evidence(
            all,
            #[trigger] names[i],
        ) by {
            if i < t.len() {
                assert(t[i] == names[i]);
                assert(is_in_evidence(before, t[i]));
                let j = choose|j: int|
                    0 <= j < before.len() && lowercase((#[trigger] before[j]).0) == lowercase(
                        names[i],
                    );
                assert(all[j] == before[j]);
            } else if all.len() > before.len() {
                assert(lowercase(all[before.len() as int].0) == lowercase(names[i]));
            }
        }
    }
}

/// The names in a section are all in the evidence once the section was looked at, blank or
/// not.
proof fn lemma_section_is_added(e: Seq<(Seq<char>, int)>, section: Seq<char>, text: Seq<char>)
    ensures
        with_section(e, section, text) == with_names(
            e,
            street_names(text),
            confidence_of(section, text),
        ),
{
    if trimmed(text).len() == 0 {
        law_blank_texts_have_no_words(text);
        assert(street_names(text) == Seq::<Seq<char>>::empty());
    }
}

/// Whether a text has one of the words in it that are written where something happened.
pub open spec fn speaks_of_an_event(text: Seq<char>) -> bool {
    let hay = normalized(text);
    ||| occurs(hay, normalized("brand"@))
    ||| occurs(hay, normalized("feuer"@))
    ||| occurs(hay, normalized("unfall"@))
    ||| occurs(hay, normalized("verletz"@))
    ||| occurs(hay, normalized("polizei"@))
    ||| occurs(hay, normalized("sperr"@))
    ||| occurs(hay, normalized("einsatz"@))
    ||| occurs(hay, normalized("warnung"@))
    ||| occurs(hay, normalized("raub"@))
    ||| occurs(hay, normalized("diebstahl"@))
    ||| occurs(hay, normalized("überfall"@))
    ||| occurs(hay, normalized("messer"@))
    ||| occurs(hay, normalized("schuss"@))
    ||| occurs(hay, normalized("verkehr"@))
    ||| occurs(hay, normalized("störung"@))
    ||| occurs(hay, normalized("rettung"@))
    ||| occurs(hay, normalized("evaku"@))
    ||| occurs(hay, normalized("gefähr"@))
}

proof fn lemma_event_terms(text: Seq<char>)
    ensures
        any_normalized(text, event_terms()) == speaks_of_an_event(text),
{
    let hay = normalized(text);
    let t = event_terms();
    assert(t.len() == 18);
    assert(t[0] == "brand"@ && t[1] == "feuer"@ && t[2] == "unfall"@ && t[3] == "verletz"@ && t[4]
        == "polizei"@ && t[5] == "sperr"@ && t[6] == "einsatz"@ && t[7] == "warnung"@ && t[8]
        == "raub"@ && t[9] == "diebstahl"@ && t[10] == "überfall"@ && t[11] == "messer"@ && t[12]
        == "schuss"@ && t[13] == "verkehr"@ && t[14] == "störung"@ && t[15] == "rettung"@ && t[16]
        == "evaku"@ && t[17] == "gefähr"@);
    if speaks_of_an_event(text) {
        assert(occurs(hay, normalized(t[0])) || occurs(hay, normalized(t[1])) || occurs(
            hay,
            normalized(t[2]),
        ) || occurs(hay, normalized(t[3])) || occurs(hay, normalized(t[4])) || occurs(
            hay,
            normalized(t[5]),
        ) || occurs(hay, normalized(t[6])) || occurs(hay, normalized(t[7])) || occurs(
            hay,
            normalized(t[8]),
        ) || occurs(hay, normalized(t[9])) || occurs(hay, normalized(t[10])) || occurs(
            hay,
            normalized(t[11]),
        ) || occurs(hay, normalized(t[12])) || occurs(hay, normalized(t[13])) || occurs(
            hay,
            normalized(t[14]),
        ) || occurs(hay, normalized(t[15])) || occurs(hay, normalized(t[16])) || occurs(
            hay,
            normalized(t[17]),
        ));
    }
}

/// What evidence in a text counts: more where the text speaks of an event.
pub open spec fn counts(base: int, text: Seq<char>) -> int {
    if speaks_of_an_event(text) {
        base + 2
    } else {
        base
    }
}

/// No street is lost: every name that is found in the title, in the description or in the
/// article above its boilerplate is in the evidence, whatever its case.
pub proof fn law_no_street_is_lost(
    title: Seq<char>,
    description: Option<&str>,
    article: Option<&str>,
)
    ensures
        forall|i: int|
            0 <= i < street_names(title).len() ==> is_in_evidence(
                street_evidence(title, description, article),
                #[trigger] street_names(title)[i],
            ),
        description matches Some(d) ==> forall|i: int|
            0 <= i < street_names(d@).len() ==> is_in_evidence(
                street_evidence(title, description, article),
                #[trigger] street_names(d@)[i],
            ),
        article matches Some(a) ==> forall|i: int|
            0 <= i < street_names(relevant(a@, lowercase(a@))).len() ==> is_in_evidence(
                street_evidence(title, description, article),
                #[trigger] street_names(relevant(a@, lowercase(a@)))[i],
            ),
{
    let none = Seq::<(Seq<char>, int)>::empty();
    let summary = text_or_empty(description);
    let body = relevant_text(article);
    let a = with_section(none, "title"@, title);
    let b = with_section(a, "description"@, summary);
    let c = with_section(b, "article"@, body);
    lemma_section_is_added(none, "title"@, title);
    lemma_section_is_added(a, "description"@, summary);
    lemma_section_is_added(b, "article"@, body);
    lemma_names_are_added(none, street_names(title), confidence_of("title"@, title));
    lemma_names_are_added(a, street_names(summary), confidence_of("description"@, summary));
    lemma_names_are_added(b, street_names(body), confidence_of("article"@, body));
    assert(c == street_evidence(title, description, article));
    assert forall|name: Seq<char>| #[trigger] is_in_evidence(a, name) implies is_in_evidence(
        b,
        name,
    ) by {
        let k = choose|k: int|
            0 <= k < a.len() && lowercase((#[trigger] a[k]).0) == lowercase(name);
        assert(b[k] == a[k]);
    }
    assert forall|name: Seq<char>| #[trigger] is_in_evidence(b, name) implies is_in_evidence(
        c,
        name,
    ) by {
        let k = choose|k: int|
            0 <= k < b.len() && lowercase((#[trigger] b[k]).0) == lowercase(name);
        assert(c[k] == b[k]);
    }
}

/// Whether a name stands in a list, whatever its case.
pub open spec fn names_hold(names: Seq<Seq<char>>, name: Seq<char>) -> bool {
    exists|i: int| 0 <= i < names.len() && lowercase(#[trigger] names[i]) == lowercase(name)
}

/// Nothing but what the sections of an item say is in the evidence, and each street counts by
/// the first section that names it: four in the title, three in the description and two in
/// the article, and two more where the section speaks of an event.
#[verifier::rlimit(40)]
pub proof fn law_streets_count_by_their_section(
    title: Seq<char>,
    description: &str,
    article: &str,
    k: int,
)
    requires
        0 <= k < street_evidence(title, Some(description), Some(article)).len(),
    ensures
        ({
            let e = street_evidence(title, Some(description), Some(article))[k];
            let body = relevant(article@, lowercase(article@));
            if names_hold(street_names(title), e.0) {
                street_names(title).contains(e.0) && e.1 == counts(4, title)
            } else if names_hold(street_names(description@), e.0) {
                street_names(description@).contains(e.0) && e.1 == counts(3, description@)
            } else {
                street_names(body).contains(e.0) && e.1 == counts(2, body)
            }
        }),
{
    let none = Seq::<(Seq<char>, int)>::empty();
    let summary = description@;
    let body = relevant(article@, lowercase(article@));
    let a = with_section(none, "title"@, title);
    let b = with_section(a, "description"@, summary);
    let c = with_section(b, "article"@, body);
    lemma_section_is_added(none, "title"@, title);
    lemma_section_is_added(a, "description"@, summary);
    lemma_section_is_added(b, "article"@, body);
    lemma_names_are_added(none, street_names(title), confidence_of("title"@, title));
    lemma_names_are_added(a, street_names(summary), confidence_of("description"@, summary));
    lemma_names_are_added(b, street_names(body), confidence_of("article"@, body));
    assert(c == street_evidence(title, Some(description), Some(article)));
    reveal_strlit("title");
    reveal_strlit("description");
    reveal_strlit("article");
    assert("title"@.len() == 5 && "description"@.len() == 11 && "article"@.len() == 7);
    lemma_event_terms(title);
    lemma_event_terms(summary);
    lemma_event_terms(body);
    let e = c[k];
    if k < a.len() {
        assert(e == b[k] && e == a[k]);
        let i = choose|i: int| 0 <= i < street_names(title).len() && street_names(title)[i] == e.0;
        assert(lowercase(street_names(title)[i]) == lowercase(e.0));
        assert(names_hold(street_names(title), e.0));
    } else {
        lemma_named_in_evidence(a, street_names(title), e.0);
        if k < b.len() {
            assert(e == b[k]);
            let names = street_names(summary);
            let i = choose|i: int| 0 <= i < names.len() && names[i] == e.0;
            assert(lowercase(names[i]) == lowercase(e.0));
            assert(names_hold(names, e.0));
        } else {
            lemma_named_in_evidence(b, street_names(summary), e.0);
            if is_in_evidence(a, e.0) {
                let j = choose|j: int|
                    0 <= j < a.len() && lowercase((#[trigger] a[j]).0) == lowercase(e.0);
                assert(b[j] == a[j]);
            }
        }
    }
}

proof fn lemma_named_in_evidence(e: Seq<(Seq<char>, int)>, names: Seq<Seq<char>>, name: Seq<char>)
    requires
        forall|i: int| 0 <= i < names.len() ==> is_in_evidence(e, #[trigger] names[i]),
    ensures
        names_hold(names, name) ==> is_in_evidence(e, name),
{
    if names_hold(names, name) {
        let i = choose|i: int|
            0 <= i < names.len() && lowercase(#[trigger] names[i]) == lowercase(name);
        let k = choose|k: int|
            0 <= k < e.len() && lowercase((#[trigger] e[k]).0) == lowercase(names[i]);
        assert(lowercase(e[k].0) == lowercase(name));
    }
}

/// Whether a word ends as German street names do.
pub open spec fn has_street_ending(w: Seq<char>) -> bool {
    ||| ends_with(w, "stra\u{df}e"@)
    ||| ends_with(w, "strasse"@)
    ||| ends_with(w, "str."@)
    ||| ends_with(w, "allee"@)
    ||| ends_with(w, "weg"@)
    ||| ends_with(w, "platz"@)
    ||| ends_with(w, "ring"@)
    ||| ends_with(w, "damm"@)
    ||| ends_with(w, "gasse"@)
    ||| ends_with(w, "chaussee"@)
    ||| ends_with(w, "ufer"@)
    ||| ends_with(w, "br\u{fc}cke"@)
    ||| ends_with(w, "brucke"@)
    ||| ends_with(w, "steg"@)
}

proof fn lemma_street_endings(w: Seq<char>)
    ensures
        ends_in_any(w, street_endings()) == has_street_ending(w),
{
    let es = street_endings();
    assert(es.len() == 14);
    assert(es[0] == "stra\u{df}e"@ && es[1] == "strasse"@ && es[2] == "str."@ && es[3] == "allee"@
        && es[4] == "weg"@ && es[5] == "platz"@ && es[6] == "ring"@ && es[7] == "damm"@ && es[8]
        == "gasse"@ && es[9] == "chaussee"@ && es[10] == "ufer"@ && es[11] == "br\u{fc}cke"@
        && es[12] == "brucke"@ && es[13] == "steg"@);
    if ends_in_any(w, es) {
        let i = choose|i: int| 0 <= i < es.len() && ends_with(w, #[trigger] es[i]);
        assert(has_street_ending(w));
    }
    if has_street_ending(w) {
        assert(ends_with(w, es[0]) || ends_with(w, es[1]) || ends_with(w, es[2]) || ends_with(
            w,
            es[3],
        ) || ends_with(w, es[4]) || ends_with(w, es[5]) || ends_with(w, es[6]) || ends_with(
            w,
            es[7],
        ) || ends_with(w, es[8]) || ends_with(w, es[9]) || ends_with(w, es[10]) || ends_with(
            w,
            es[11],
        ) || ends_with(w, es[12]) || ends_with(w, es[13]));
    }
}

proof fn lemma_name_start(lowers: Seq<Seq<char>>, from: int, to: int)
    requires
        0 <= from <= to,
    ensures
        from <= name_start(lowers, from, to) <= to,
        forall|j: int|
            from <= j < name_start(lowers, from, to) ==> leading_words().contains(
                bare(#[trigger] lowers[j]),
            ),
        name_start(lowers, from, to) < to ==> !leading_words().contains(
            bare(lowers[name_start(lowers, from, to)]),
        ),
    decreases to - from,
{
    if from < to && leading_words().contains(bare(lowers[from])) {
        lemma_name_start(lowers, from + 1, to);
    }
}

proof fn lemma_joined_part(parts: Seq<Seq<char>>, sep: Seq<char>, k: int)
    requires
        0 <= k < parts.len(),
    ensures
        exists|a: Seq<char>, b: Seq<char>| join(parts, sep) == #[trigger] (a + parts[k] + b),
        ends_with(join(parts, sep), parts.last()),
    decreases parts.len(),
{
    let all = join(parts, sep);
    let none = Seq::<char>::empty();
    if parts.len() == 1 {
        assert(all == none + parts[0] + none);
        assert(all.skip(0) == parts[0]);
        assert(all.subrange(all.len() - parts.last().len(), all.len() as int) == parts.last());
    } else {
        let t = parts.drop_last();
        let head = join(t, sep) + sep;
        assert(all.subrange(all.len() - parts.last().len(), all.len() as int) == parts.last());
        assert(all.skip(all.len() - parts.last().len()) == parts.last());
        if k == parts.len() - 1 {
            assert(all == head + parts[k] + none);
        } else {
            lemma_joined_part(t, sep, k);
            let (a, b) = choose|a: Seq<char>, b: Seq<char>|
                join(t, sep) == #[trigger] (a + t[k] + b);
            assert(all == a + parts[k] + (b + sep + parts.last()));
        }
    }
}

proof fn lemma_street_is_listed(ws: Seq<Seq<char>>, n: int, i: int)
    requires
        0 <= i < n,
        street_at(ws, lowered(ws), i) is Some,
    ensures
        names_hold(streets_upto(ws, n), street_at(ws, lowered(ws), i)->0),
    decreases n,
{
    let before = streets_upto(ws, n - 1);
    let all = streets_upto(ws, n);
    let name = street_at(ws, lowered(ws), i)->0;
    if i == n - 1 {
        if is_listed(before, name) {
            let k = choose|k: int|
                0 <= k < lowered(before).len() && lowered(before)[k] == lowercase(name);
            assert(lowercase(all[k]) == lowercase(name));
        } else {
            assert(all[before.len() as int] == name);
        }
    } else {
        lemma_street_is_listed(ws, n - 1, i);
        let k = choose|k: int|
            0 <= k < before.len() && lowercase(#[trigger] before[k]) == lowercase(name);
        assert(all[k] == before[k]);
    }
}

/// Every word of a text that ends as street names do is found as part of one: unless it is
/// nothing but the ending, a word that no name starts with, or too short, a street name with
/// the word in it is among the candidates, whatever the case; and a house number behind the
/// word stands at the end of that name.
#[verifier::rlimit(40)]
pub proof fn law_street_words_are_found(text: Seq<char>, i: int)
    requires
        0 <= i < words(text).len(),
        has_street_ending(bare(lowercase(words(text)[i]))),
        !street_endings().contains(bare(lowercase(words(text)[i]))),
        !leading_words().contains(bare(lowercase(words(text)[i]))),
        encode_utf8(trim_end(words(text)[i], CharClass::WordEnd)).len() >= 5,
    ensures
        exists|a: Seq<char>, b: Seq<char>|
            names_hold(
                street_names(text),
                #[trigger] (a + trim_end(words(text)[i], CharClass::WordEnd) + b),
            ) && (i + 1 < words(text).len() && is_house_number(
                trim_end(words(text)[i + 1], CharClass::Only(',')),
            ) ==> ends_with(
                a + trim_end(words(text)[i], CharClass::WordEnd) + b,
                trim_end(
                    trim_end(words(text)[i + 1], CharClass::Only(',')),
                    CharClass::WordEnd,
                ),
            )),
{
    let ws = words(text);
    let lowers = lowered(ws);
    let w = trim_end(ws[i], CharClass::WordEnd);
    let from = if i < 2 {
        0
    } else {
        i - 2
    };
    assert(lowers[i] == lowercase(ws[i]));
    lemma_street_endings(bare(lowers[i]));
    lemma_name_start(lowers, from, i + 1);
    let start = name_start(lowers, from, i + 1);
    if start > i {
        assert(leading_words().contains(bare(lowers[i])));
    }
    let parts = name_parts(ws, lowers, i);
    let bare_parts = parts.map_values(|w: Seq<char>| trim_end(w, CharClass::WordEnd));
    let name = joined_bare(parts);
    assert(parts[i - start] == ws[i]);
    assert(bare_parts[i - start] == w);
    lemma_joined_part(bare_parts, " "@, i - start);
    let (a, b) = choose|a: Seq<char>, b: Seq<char>| name == #[trigger] (a + bare_parts[i - start] + b);
    lemma_encode_concat(a + w, b);
    lemma_encode_concat(a, w);
    assert(street_at(ws, lowers, i) == Some(name));
    lemma_street_is_listed(ws, ws.len() as int, i);
    assert(name == a + w + b);
}

/// Every street name that is found comes from a word of the text that ends as street names
/// do: the name has that word in it.
#[verifier::rlimit(40)]
pub proof fn law_streets_have_an_ending(text: Seq<char>, k: int)
    requires
        0 <= k < street_names(text).len(),
    ensures
        exists|i: int|
            0 <= i < words(text).len() && has_street_ending(
                bare(lowercase(#[trigger] words(text)[i])),
            ) && occurs(street_names(text)[k], trim_end(words(text)[i], CharClass::WordEnd)),
{
    lemma_street_source(words(text), words(text).len() as int, k);
    let ws = words(text);
    let i = choose|i: int|
        0 <= i < ws.len() && #[trigger] street_at(ws, lowered(ws), i) == Some(street_names(text)[k]);
    let lowers = lowered(ws);
    let from = if i < 2 {
        0
    } else {
        i - 2
    };
    assert(lowers[i] == lowercase(ws[i]));
    lemma_street_endings(bare(lowers[i]));
    lemma_name_start(lowers, from, i + 1);
    let start = name_start(lowers, from, i + 1);
    let parts = name_parts(ws, lowers, i);
    let bare_parts = parts.map_values(|w: Seq<char>| trim_end(w, CharClass::WordEnd));
    let name = joined_bare(parts);
    let w = trim_end(ws[i], CharClass::WordEnd);
    assert(parts[i - start] == ws[i]);
    assert(bare_parts[i - start] == w);
    lemma_joined_part(bare_parts, " "@, i - start);
    let (a, b) = choose|a: Seq<char>, b: Seq<char>| name == #[trigger] (a + bare_parts[i - start] + b);
    assert(name.subrange(a.len() as int, (a.len() + w.len()) as int) == w);
    assert(occurs_at(name, w, a.len() as int));
}

proof fn lemma_street_source(ws: Seq<Seq<char>>, n: int, k: int)
    requires
        0 <= n <= ws.len(),
        0 <= k < streets_upto(ws, n).len(),
    ensures
        exists|i: int|
            0 <= i < n && #[trigger] street_at(ws, lowered(ws), i) == Some(streets_upto(ws, n)[k]),
    decreases n,
{
    if n > 0 {
        let before = streets_upto(ws, n - 1);
        let all = streets_upto(ws, n);
        if k < before.len() {
            lemma_street_source(ws, n - 1, k);
            assert(all[k] == before[k]);
        } else {
            assert(street_at(ws, lowered(ws), n - 1) == Some(all[k]));
        }
    }
}

proof fn lemma_address_parts(pieces: Seq<Seq<char>>)
    ensures
        address_parts(pieces) == pieces.map_values(|p: Seq<char>| trimmed(p)).filter(
            |p: Seq<char>| p.len() > 0,
        ),
    decreases pieces.len(),
{
    reveal(Seq::filter);
    let f = |p: Seq<char>| trimmed(p);
    let all = pieces.map_values(f);
    if pieces.len() > 0 {
        lemma_address_parts(pieces.drop_last());
        assert(all.drop_last() == pieces.drop_last().map_values(f));
        assert(all.last() == trimmed(pieces.last()));
    }
}

/// A place is called by the first three parts of its address that are not blank, without the
/// white space around them; there is nothing to call it by only where all parts are blank.
pub proof fn law_labels_start_the_address(display_name: Seq<char>)
    ensures
        ({
            let parts = split(display_name, ',').map_values(|p: Seq<char>| trimmed(p)).filter(
                |p: Seq<char>| p.len() > 0,
            );
            &&& parts.len() == 0 ==> short_label(display_name) is None
            &&& parts.len() == 1 ==> short_label(display_name) == Some(parts[0])
            &&& parts.len() == 2 ==> short_label(display_name) == Some(
                parts[0] + ", "@ + parts[1],
            )
            &&& parts.len() >= 3 ==> short_label(display_name) == Some(
                parts[0] + ", "@ + parts[1] + ", "@ + parts[2],
            )
        }),
{
    lemma_address_parts(split(display_name, ','));
    let parts = address_parts(split(display_name, ','));
    reveal_with_fuel(join, 4);
    if parts.len() >= 3 {
        let three = parts.take(3);
        assert(at_most(parts, 3) == three) by {
            if parts.len() == 3 {
                assert(parts.take(3) == parts);
            }
        }
        assert(three.drop_last().drop_last().len() == 1);
        assert(three.drop_last().last() == parts[1]);
        assert(three.last() == parts[2]);
    } else if parts.len() == 2 {
        assert(parts.drop_last().len() == 1);
        assert(parts.drop_last()[0] == parts[0]);
    }
}

/// Whether a word is one that no street name starts with.
pub open spec fn cannot_start_a_name(w: Seq<char>) -> bool {
    ||| w == "auf"@
    ||| w == "der"@
    ||| w == "die"@
    ||| w == "das"@
    ||| w == "dem"@
    ||| w == "den"@
    ||| w == "des"@
    ||| w == "ein"@
    ||| w == "eine"@
    ||| w == "einen"@
    ||| w == "am"@
    ||| w == "im"@
    ||| w == "zur"@
    ||| w == "zum"@
    ||| w == "vom"@
    ||| w == "von"@
    ||| w == "an"@
    ||| w == "in"@
    ||| w == "zu"@
    ||| w == "bei"@
    ||| w == "nach"@
    ||| w == "über"@
    ||| w == "unter"@
    ||| w == "vor"@
    ||| w == "durch"@
    ||| w == "entlang"@
    ||| w == "bis"@
    ||| w == "um"@
    ||| w == "seit"@
    ||| w == "ab"@
    ||| w == "außer"@
    ||| w == "gegenüber"@
    ||| w == "nahe"@
    ||| w == "und"@
    ||| w == "oder"@
    ||| w == "sowie"@
    ||| w == "bzw"@
    ||| w == "einem"@
    ||| w == "einer"@
    ||| w == "eines"@
}

proof fn lemma_leading_words(w: Seq<char>)
    ensures
        leading_words().contains(w) <==> cannot_start_a_name(w),
{
    let t = leading_words();
    assert(t.len() == 40);
    assert(t[0] == "auf"@ && t[1] == "der"@ && t[2] == "die"@ && t[3] == "das"@);
    assert(t[4] == "dem"@ && t[5] == "den"@ && t[6] == "des"@ && t[7] == "ein"@);
    assert(t[8] == "eine"@ && t[9] == "einen"@ && t[10] == "am"@ && t[11] == "im"@);
    assert(t[12] == "zur"@ && t[13] == "zum"@ && t[14] == "vom"@ && t[15] == "von"@);
    assert(t[16] == "an"@ && t[17] == "in"@ && t[18] == "zu"@ && t[19] == "bei"@);
    assert(t[20] == "nach"@ && t[21] == "über"@ && t[22] == "unter"@ && t[23] == "vor"@);
    assert(t[24] == "durch"@ && t[25] == "entlang"@ && t[26] == "bis"@ && t[27] == "um"@);
    assert(t[28] == "seit"@ && t[29] == "ab"@ && t[30] == "außer"@ && t[31] == "gegenüber"@);
    assert(t[32] == "nahe"@ && t[33] == "und"@ && t[34] == "oder"@ && t[35] == "sowie"@);
    assert(t[36] == "bzw"@ && t[37] == "einem"@ && t[38] == "einer"@ && t[39] == "eines"@);
    if t.contains(w) {
        let k = choose|k: int| 0 <= k < t.len() && t[k] == w;
        assert(0 <= k < 40);
    }
    if cannot_start_a_name(w) {
        assert(exists|k: int| 0 <= k < t.len() && t[k] == w);
    }
}

/// Whether a street name stands in some words from the word `j` to the word `i`: the last of
/// them ends as street names do, with at most two words before it, and the first is one that a
/// name can start with, which no word is that was passed over.
pub open spec fn name_spans(name: Seq<char>, ws: Seq<Seq<char>>, j: int, i: int) -> bool {
    &&& 0 <= j <= i < ws.len()
    &&& i - j <= 2
    &&& has_street_ending(bare(lowercase(ws[i])))
    &&& !cannot_start_a_name(bare(lowercase(ws[j])))
    &&& forall|m: int|
        0 <= m < j && i - m <= 2 ==> cannot_start_a_name(bare(lowercase(#[trigger] ws[m])))
    &&& starts_with(name, trim_end(ws[j], CharClass::WordEnd))
    &&& j == i ==> !street_endings().contains(bare(lowercase(ws[i])))
}

/// Every street name that is found spans the words up to one with an ending, and is at least
/// five bytes long.
#[verifier::rlimit(40)]
pub proof fn law_street_names_span_words(text: Seq<char>, k: int)
    requires
        0 <= k < street_names(text).len(),
    ensures
        encode_utf8(street_names(text)[k]).len() >= 5,
        exists|j: int, i: int| #[trigger] name_spans(street_names(text)[k], words(text), j, i),
{
    lemma_street_source(words(text), words(text).len() as int, k);
    let ws = words(text);
    let i = choose|i: int|
        0 <= i < ws.len() && #[trigger] street_at(ws, lowered(ws), i) == Some(street_names(text)[k]);
    let lowers = lowered(ws);
    let from = if i < 2 {
        0
    } else {
        i - 2
    };
    assert(lowers[i] == lowercase(ws[i]));
    lemma_street_endings(bare(lowers[i]));
    lemma_name_start(lowers, from, i + 1);
    let start = name_start(lowers, from, i + 1);
    let name = street_names(text)[k];
    assert(lowers[start] == lowercase(ws[start]));
    lemma_leading_words(bare(lowers[start]));
    assert forall|m: int| 0 <= m < start && i - m <= 2 implies cannot_start_a_name(
        bare(lowercase(#[trigger] ws[m])),
    ) by {
        assert(lowers[m] == lowercase(ws[m]));
        lemma_leading_words(bare(lowers[m]));
    }
    lemma_joined_start(name_parts(ws, lowers, i));
    assert(name_parts(ws, lowers, i)[0] == ws[start]);
    assert(name_spans(name, ws, start, i));
}

proof fn lemma_joined_start(parts: Seq<Seq<char>>)
    requires
        parts.len() > 0,
    ensures
        starts_with(joined_bare(parts), trim_end(parts[0], CharClass::WordEnd)),
{
    let bare_parts = parts.map_values(|w: Seq<char>| trim_end(w, CharClass::WordEnd));
    let first = trim_end(parts[0], CharClass::WordEnd);
    let name = join(bare_parts, " "@);
    assert(bare_parts[0] == first);
    if parts.len() > 1 {
        lemma_join_first(bare_parts, " "@);
    }
    assert(name.subrange(0, first.len() as int) == first);
}

/// A house number starts with a digit and takes up to four bytes, as `12`, `7a` and `1234` do.
pub proof fn law_house_numbers_are_short(w: Seq<char>)
    ensures
        is_house_number(w) ==> '0' <= w[0] <= '9' && 1 <= encode_utf8(w).len() <= 4,
        w.len() > 0 && '0' <= w[0] <= '9' && encode_utf8(w).len() <= 4 ==> is_house_number(w),
        w.len() == 0 ==> !is_house_number(w),
{
    if w.len() > 0 {
        let first = seq![w[0]];
        assert(first + w.skip(1) == w);
        lemma_encode_concat(first, w.skip(1));
        if '0' <= w[0] <= '9' {
            vstd::utf8::is_ascii_chars_encode_utf8(first);
        }
    }
}

} // verus!

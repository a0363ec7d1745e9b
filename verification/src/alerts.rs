//! Alerts: how they are worded, and the warnings of the German authorities.

use vstd::prelude::*;

use crate::dates::{
    is_stamp, local_stamp, parse_rfc3339, rfc3339_second, show_span, span_text, stamp_view,
    LocalStamp, Shown,
};
use crate::html::{escape, html_escape};
use crate::item::{str_view, text_of};
use crate::json::{document_in, element, items_in, member, parse_json, text_in, Json};
use crate::text::{
    append_str, chars_of, copy_range, ends_with, join, join_of, law_joined_parts_are_kept,
    law_trimming_takes_the_ends, law_white_space_parts_words, lemma_added, lemma_between,
    lemma_kept, lemma_occurs_within, occurs, replace, replace_of, same, str_same, string_of,
    trim_of, trimmed, words, words_of, CharClass,
};
use crate::url::{url_encode, url_encoded};

verus! {

// ---------------------------------------------------------------------------
// Wording
// ---------------------------------------------------------------------------

/// An alert that can be sent.
pub struct Alert {
    /// What the alert is recognised by, so that it is sent once.
    pub key: String,
    /// The headline.
    pub headline: String,
    /// The alert in plain text.
    pub plain: String,
    /// The alert in HTML.
    pub html: String,
}

/// An alert in plain text.
pub open spec fn alert_plain(
    source: Seq<char>,
    event: Seq<char>,
    description: Seq<char>,
    link: Option<Seq<char>>,
) -> Seq<char> {
    "🚨 "@ + event + "\n"@ + description + (match link {
        Some(l) => "\n🔗 "@ + l,
        None => seq![],
    }) + "\nSource: "@ + source
}

/// An alert in HTML.
pub open spec fn alert_html(
    source: Seq<char>,
    event: Seq<char>,
    description: Seq<char>,
    link: Option<Seq<char>>,
) -> Seq<char> {
    "<b>🚨 "@ + escape(event) + "</b><br>"@ + replace(escape(description), "\n"@, "<br>"@) + (
    match link {
        Some(l) => "<br>🔗 <a href=\""@ + escape(l) + "\">"@ + escape(l) + "</a>"@,
        None => seq![],
    }) + "<br><em>Source: "@ + escape(source) + "</em>"@
}

/// Escapes `&`, `<`, `>` and `"`.
pub fn alert_html_escape(s: &str) -> (r: String)
    ensures
        r@ == escape(s@),
{
    html_escape(s)
}

/// An alert in plain text and in HTML.
pub fn format_alert(source: &str, event: &str, description: &str, link: Option<&str>) -> (r: (
    String,
    String,
))
    ensures
        r.0@ == alert_plain(source@, event@, description@, str_view(link)),
        r.1@ == alert_html(source@, event@, description@, str_view(link)),
{
    let mut plain: Vec<char> = Vec::new();
    append_str(&mut plain, "🚨 ");
    append_str(&mut plain, event);
    append_str(&mut plain, "\n");
    append_str(&mut plain, description);
    if let Some(l) = link {
        append_str(&mut plain, "\n🔗 ");
        append_str(&mut plain, l);
    }
    append_str(&mut plain, "\nSource: ");
    append_str(&mut plain, source);
    assert(plain@ =~= alert_plain(source@, event@, description@, str_view(link)));

    let escaped = alert_html_escape(description);
    proof {
        reveal_strlit("\n");
    }
    let lines = replace_of(chars_of(escaped.as_str()).as_slice(), "\n", "<br>");
    let mut html: Vec<char> = Vec::new();
    append_str(&mut html, "<b>🚨 ");
    append_str(&mut html, alert_html_escape(event).as_str());
    append_str(&mut html, "</b><br>");
    append_str(&mut html, string_of(lines.as_slice()).as_str());
    if let Some(l) = link {
        let href = alert_html_escape(l);
        append_str(&mut html, "<br>🔗 <a href=\"");
        append_str(&mut html, href.as_str());
        append_str(&mut html, "\">");
        append_str(&mut html, href.as_str());
        append_str(&mut html, "</a>");
    }
    append_str(&mut html, "<br><em>Source: ");
    append_str(&mut html, alert_html_escape(source).as_str());
    append_str(&mut html, "</em>");
    assert(html@ =~= alert_html(source@, event@, description@, str_view(link)));
    (string_of(plain.as_slice()), string_of(html.as_slice()))
}

// ---------------------------------------------------------------------------
// Sentences
// ---------------------------------------------------------------------------

/// Whether a character ends a sentence.
pub open spec fn ends_sentence(c: char) -> bool {
    c == '.' || c == '!' || c == '?'
}

/// The sentences of a text, each once, until there are as many as wanted:
/// `found` were found before, the current one begins at `start`, and the text is
/// read from `i` on. What is behind the last end of a sentence is none.
pub open spec fn sentences_from(
    text: Seq<char>,
    start: int,
    i: int,
    found: Seq<Seq<char>>,
    max: int,
) -> Seq<Seq<char>>
    decreases text.len() - i,
{
    if i < 0 || i >= text.len() {
        found
    } else if ends_sentence(text[i]) {
        let sentence = trimmed(text.subrange(start, i + 1));
        let more = if sentence.len() > 0 && !found.contains(sentence) {
            found.push(sentence)
        } else {
            found
        };
        if more.len() >= max {
            more
        } else {
            sentences_from(text, i + 1, i + 1, more, max)
        }
    } else {
        sentences_from(text, start, i + 1, found, max)
    }
}

/// The first sentences of a text, or all of it where it has none; nothing where
/// it is blank.
pub open spec fn concise(text: Seq<char>, max: int) -> Option<Seq<char>> {
    let t = join(words(text), " "@);
    let sentences = sentences_from(t, 0, 0, seq![], max);
    if t.len() == 0 {
        None
    } else if sentences.len() == 0 {
        Some(t)
    } else {
        Some(join(sentences, " "@))
    }
}

fn is_among(list: &Vec<Vec<char>>, s: &Vec<char>) -> (r: bool)
    ensures
        r == list.deep_view().contains(s@),
{
    let n: usize = list.len();
    let mut i: usize = 0;
    while i < n
        invariant
            0 <= i <= n,
            n == list@.len(),
            forall|j: int| 0 <= j < i ==> #[trigger] list.deep_view()[j] != s@,
        decreases n - i,
    {
        assert(list.deep_view()[i as int] == list@[i as int]@);
        if same(list[i].as_slice(), s.as_slice()) {
            assert(list.deep_view()[i as int] == s@);
            return true;
        }
        i += 1;
    }
    false
}

/// The first sentences of a text, each once, at most `max_sentences` but at
/// least one; all of it where it has none; `None` where it is blank.
pub fn concise_sentences(text: &str, max_sentences: usize) -> (r: Option<String>)
    ensures
        r.deep_view() == concise(text@, max_sentences as int),
{
    let c = chars_of(text);
    let t = join_of(&words_of(c.as_slice()), " ");
    let n: usize = t.len();
    if n == 0 {
        return None;
    }
    let mut sentences: Vec<Vec<char>> = Vec::new();
    let mut start: usize = 0;
    let mut i: usize = 0;
    let ghost all = sentences_from(t@, 0, 0, seq![], max_sentences as int);
    assert(sentences.deep_view() == Seq::<Seq<char>>::empty());
    let mut done = false;
    while i < n && !done
        invariant
            0 <= start <= i <= n,
            n == t@.len(),
            done ==> sentences.deep_view() == all,
            !done ==> all == sentences_from(
                t@,
                start as int,
                i as int,
                sentences.deep_view(),
                max_sentences as int,
            ),
        decreases n - i,
    {
        let ch = t[i];
        if ch == '.' || ch == '!' || ch == '?' {
            let ghost before = sentences.deep_view();
            let raw = copy_range(t.as_slice(), start, i + 1);
            let sentence = trim_of(raw.as_slice(), CharClass::Space);
            if sentence.len() > 0 && !is_among(&sentences, &sentence) {
                sentences.push(sentence);
                assert(sentences.deep_view() == before.push(sentence@)) by {
                    assert(sentence.deep_view() == sentence@);
                }
            }
            assert(sentences.deep_view().len() == sentences@.len());
            if sentences.len() >= max_sentences {
                done = true;
            }
            start = i + 1;
        }
        i += 1;
    }
    assert(sentences.deep_view().len() == sentences@.len());
    if sentences.len() == 0 {
        Some(string_of(t.as_slice()))
    } else {
        Some(string_of(join_of(&sentences, " ").as_slice()))
    }
}

// ---------------------------------------------------------------------------
// Time spans
// ---------------------------------------------------------------------------

/// The point in time that is written in a text in the notation of RFC 3339.
pub open spec fn second_in(text: Option<Seq<char>>) -> Option<int> {
    match text {
        Some(t) => match rfc3339_second(t) {
            Some(secs) => Some(secs as int),
            None => None,
        },
        None => None,
    }
}

/// Whether a text is a time span from one point in time, as it is written, to
/// another one, on the clock of some machine.
pub open spec fn is_span(
    r: Option<Seq<char>>,
    start: Option<Seq<char>>,
    end: Option<Seq<char>>,
) -> bool {
    exists|a: Option<Shown>, b: Option<Shown>| #[trigger]
        is_stamp(a, second_in(start)) && #[trigger] is_stamp(b, second_in(end)) && r == span_text(
            a,
            b,
        )
}

fn stamp_of_text(text: Option<&str>) -> (r: Option<LocalStamp>)
    ensures
        is_stamp(stamp_view(r), second_in(str_view(text))),
{
    match text {
        Some(t) => match parse_rfc3339(t) {
            Some(time) => local_stamp(time.0),
            None => None,
        },
        None => None,
    }
}

/// A time span as it is shown on the clock of the machine.
pub fn format_rfc3339_validity(start: Option<&str>, end: Option<&str>) -> (r: Option<String>)
    ensures
        is_span(r.deep_view(), str_view(start), str_view(end)),
{
    let a = stamp_of_text(start);
    let b = stamp_of_text(end);
    assert(is_stamp(stamp_view(a), second_in(str_view(start))));
    assert(is_stamp(stamp_view(b), second_in(str_view(end))));
    show_span(&a, &b)
}

// ---------------------------------------------------------------------------
// Warnings of the German authorities
// ---------------------------------------------------------------------------

/// The text of a member, or what stands for it where there is none.
pub open spec fn text_or(j: Json, key: Seq<char>, default: Seq<char>) -> Seq<char> {
    match text_in(member(j, key)) {
        Some(t) => t,
        None => default,
    }
}

/// The text of a member, or what stands for it where there is none.
pub(crate) fn text_or_default<'a>(j: &'a Json, key: &str, default: &'a str) -> (r: &'a str)
    ensures
        r@ == text_or(*j, key@, default@),
{
    match j.text_of(key) {
        Some(t) => t,
        None => default,
    }
}

/// What a warning is recognised by. A warning that was changed has another key.
pub open spec fn nina_key(id: Seq<char>, data: Json) -> Seq<char> {
    "nina:"@ + id + ":"@ + text_or(data, "sent"@, ""@) + ":"@ + text_or(data, "effective"@, ""@)
        + ":"@ + text_or(data, "expires"@, ""@) + ":"@ + text_or(data, "severity"@, ""@)
}

/// What a warning is recognised by.
pub fn nina_alert_key(id: &str, data: &Json) -> (r: String)
    ensures
        r@ == nina_key(id@, *data),
{
    let mut out: Vec<char> = Vec::new();
    append_str(&mut out, "nina:");
    append_str(&mut out, id);
    append_str(&mut out, ":");
    append_str(&mut out, text_or_default(data, "sent", ""));
    append_str(&mut out, ":");
    append_str(&mut out, text_or_default(data, "effective", ""));
    append_str(&mut out, ":");
    append_str(&mut out, text_or_default(data, "expires", ""));
    append_str(&mut out, ":");
    append_str(&mut out, text_or_default(data, "severity", ""));
    assert(out@ =~= nina_key(id@, *data));
    string_of(out.as_slice())
}

/// A line with a mark in front, if there is something to say.
pub open spec fn marked(mark: Seq<char>, text: Option<Seq<char>>) -> Seq<Seq<char>> {
    match text {
        Some(t) => seq![mark + t],
        None => seq![],
    }
}

/// Adds a line with a mark in front, if there is something to say.
pub(crate) fn push_marked(lines: &mut Vec<Vec<char>>, mark: &str, text: Option<&str>)
    ensures
        final(lines).deep_view() == old(lines).deep_view() + marked(mark@, str_view(text)),
{
    let ghost before = lines.deep_view();
    match text {
        Some(t) => {
            let mut line = chars_of(mark);
            append_str(&mut line, t);
            lines.push(line);
            assert(lines.deep_view() == before.push(line@)) by {
                assert(line.deep_view() == line@);
            }
            assert(before.push(line@) == before + seq![line@]);
        },
        None => {
            assert(before + Seq::<Seq<char>>::empty() == before);
        },
    }
}

/// A reference to the string that may be missing.
pub(crate) fn opt_str(s: &Option<String>) -> (r: Option<&str>)
    ensures
        str_view(r) == s.deep_view(),
{
    match s {
        Some(t) => Some(t.as_str()),
        None => None,
    }
}

/// Where a warning holds: in the first of its areas.
pub open spec fn nina_area(data: Json) -> Option<Seq<char>> {
    text_in(member(element(member(data, "area"@), 0), "areaDesc"@))
}

/// What is said of a warning, given the time span that it holds for.
pub open spec fn nina_text(data: Json, valid: Option<Seq<char>>) -> Seq<char> {
    join(
        marked("📍 "@, nina_area(data)) + marked("🕒 "@, valid) + marked(
            "ℹ️ "@,
            concise(text_or(data, "description"@, ""@), 2),
        ) + marked("✅ "@, concise(text_or(data, "instruction"@, ""@), 2)),
        "\n"@,
    )
}

/// What is said of a warning, given the time span that it holds for.
pub fn nina_description(data: &Json, valid: Option<&str>) -> (r: String)
    ensures
        r@ == nina_text(*data, str_view(valid)),
{
    let mut lines: Vec<Vec<char>> = Vec::new();
    assert(lines.deep_view() == Seq::<Seq<char>>::empty());
    let area = match data.get("area") {
        Some(areas) => match areas.at(0) {
            Some(first) => first.text_of("areaDesc"),
            None => None,
        },
        None => None,
    };
    push_marked(&mut lines, "📍 ", area);
    push_marked(&mut lines, "🕒 ", valid);
    let details = concise_sentences(text_or_default(data, "description", ""), 2);
    push_marked(&mut lines, "ℹ️ ", opt_str(&details));
    let advice = concise_sentences(text_or_default(data, "instruction", ""), 2);
    push_marked(&mut lines, "✅ ", opt_str(&advice));
    assert(lines.deep_view() =~= marked("📍 "@, nina_area(*data)) + marked(
        "🕒 "@,
        str_view(valid),
    ) + marked("ℹ️ "@, concise(text_or(*data, "description"@, ""@), 2)) + marked(
        "✅ "@,
        concise(text_or(*data, "instruction"@, ""@), 2),
    ));
    string_of(join_of(&lines, "\n").as_slice())
}

/// Whether a text is what is said of a warning, on the clock of some machine.
pub open spec fn is_nina_text(r: Seq<char>, data: Json) -> bool {
    exists|valid: Option<Seq<char>>| #[trigger]
        is_span(
            valid,
            text_in(member(data, "effective"@)),
            text_in(member(data, "expires"@)),
        ) && r == nina_text(data, valid)
}

/// What is said of a warning.
pub fn format_nina_description(data: &Json) -> (r: String)
    ensures
        is_nina_text(r@, *data),
{
    let valid = format_rfc3339_validity(data.text_of("effective"), data.text_of("expires"));
    let out = nina_description(data, opt_str(&valid));
    assert(is_span(
        valid.deep_view(),
        text_in(member(*data, "effective"@)),
        text_in(member(*data, "expires"@)),
    ) && out@ == nina_text(*data, valid.deep_view()));
    out
}

/// What a warning says.
pub open spec fn nina_data(w: Json) -> Json {
    member(member(w, "payload"@), "data"@)
}

/// Whether a warning counts: it has an id and is not called off.
pub open spec fn nina_counts(w: Json) -> bool {
    text_in(member(w, "id"@)) is Some && text_in(member(nina_data(w), "msgType"@)) != Some(
        "Cancel"@,
    )
}

/// The warnings that count.
pub open spec fn nina_counted(ws: Seq<Json>) -> Seq<Json>
    decreases ws.len(),
{
    if ws.len() == 0 {
        ws
    } else {
        let before = nina_counted(ws.drop_last());
        if nina_counts(ws.last()) {
            before.push(ws.last())
        } else {
            before
        }
    }
}

/// Whether an alert is the one for a warning, on the clock of some machine.
pub open spec fn is_nina_alert(a: Alert, w: Json) -> bool {
    let id = text_in(member(w, "id"@))->0;
    let data = nina_data(w);
    let headline = text_or(data, "headline"@, "Warnung"@);
    &&& a.key@ == nina_key(id, data)
    &&& a.headline@ == headline
    &&& exists|text: Seq<char>| #[trigger]
        is_nina_text(text, data) && {
            let link = Some("https://warnung.bund.de/meldung/"@ + id);
            &&& a.plain@ == alert_plain("NINA/warnung.bund.de"@, headline, text, link)
            &&& a.html@ == alert_html("NINA/warnung.bund.de"@, headline, text, link)
        }
}

/// Whether alerts are those for warnings, one for each that counts.
pub open spec fn are_nina_alerts(r: Seq<Alert>, ws: Seq<Json>) -> bool {
    &&& r.len() == nina_counted(ws).len()
    &&& forall|i: int| 0 <= i < r.len() ==> is_nina_alert(#[trigger] r[i], nina_counted(ws)[i])
}

fn nina_alert(id: &str, data: &Json) -> (r: Alert)
    ensures
        r.key@ == nina_key(id@, *data),
        r.headline@ == text_or(*data, "headline"@, "Warnung"@),
        exists|text: Seq<char>| #[trigger]
            is_nina_text(text, *data) && {
                let link = Some("https://warnung.bund.de/meldung/"@ + id@);
                let headline = text_or(*data, "headline"@, "Warnung"@);
                &&& r.plain@ == alert_plain("NINA/warnung.bund.de"@, headline, text, link)
                &&& r.html@ == alert_html("NINA/warnung.bund.de"@, headline, text, link)
            },
{
    let headline = text_or_default(data, "headline", "Warnung");
    let desc = format_nina_description(data);
    let mut link = "https://warnung.bund.de/meldung/".to_owned();
    link.append(id);
    let (plain, html) = format_alert(
        "NINA/warnung.bund.de",
        headline,
        desc.as_str(),
        Some(link.as_str()),
    );
    assert(is_nina_text(desc@, *data));
    Alert { key: nina_alert_key(id, data), headline: headline.to_owned(), plain, html }
}

/// Why an answer holds no warnings.
#[derive(Clone, Copy, PartialEq, Eq, Structural)]
pub enum NinaError {
    /// It is no document.
    NotJson,
    /// It is no list.
    NotArray,
}

/// The alerts for warnings.
pub fn nina_alerts_of(ws: &[Json]) -> (r: Vec<Alert>)
    ensures
        are_nina_alerts(r@, ws@),
{
    let n: usize = ws.len();
    let mut out: Vec<Alert> = Vec::new();
    let mut i: usize = 0;
    assert(ws@.take(0) == Seq::<Json>::empty());
    while i < n
        invariant
            0 <= i <= n,
            n == ws@.len(),
            are_nina_alerts(out@, ws@.take(i as int)),
        decreases n - i,
    {
        let w = &ws[i];
        assert(ws@.take(i + 1).drop_last() == ws@.take(i as int));
        assert(ws@.take(i + 1).last() == *w);
        let none = Json::Null;
        let data = match w.get("payload") {
            Some(p) => match p.get("data") {
                Some(d) => d,
                None => &none,
            },
            None => &none,
        };
        assert(*data == nina_data(*w));
        let cancelled = match data.text_of("msgType") {
            Some(t) => str_same(t, "Cancel"),
            None => false,
        };
        if let Some(id) = w.text_of("id") {
            if !cancelled {
                let alert = nina_alert(id, data);
                out.push(alert);
                assert(is_nina_alert(alert, *w));
            }
        }
        i += 1;
    }
    assert(ws@.take(n as int) == ws@);
    out
}

/// Reads an answer: the alerts for the warnings that count.
pub fn read_nina_answer(body: &str) -> (r: Result<Vec<Alert>, NinaError>)
    ensures
        match r {
            Ok(alerts) => document_in(body@) matches Some(j) && items_in(j) matches Some(ws)
                && are_nina_alerts(alerts@, ws),
            Err(NinaError::NotJson) => document_in(body@) is None,
            Err(NinaError::NotArray) => document_in(body@) matches Some(j) && items_in(j) is None,
        },
{
    match parse_json(body) {
        Some(Json::Array(ws)) => Ok(nina_alerts_of(ws.as_slice())),
        Some(_) => Err(NinaError::NotArray),
        None => Err(NinaError::NotJson),
    }
}

/// The address that warnings for a municipality come from.
pub fn nina_dashboard_url(ags: &str) -> (r: String)
    ensures
        r@ == "https://nina.api.bund.de/api31/dashboard/"@ + ags@,
{
    let mut out = "https://nina.api.bund.de/api31/dashboard/".to_owned();
    out.append(ags);
    out
}

// ---------------------------------------------------------------------------
// The municipality
// ---------------------------------------------------------------------------

/// The town at a place in Germany.
pub open spec fn town_of(place: Json) -> Option<Seq<char>> {
    let address = member(place, "address"@);
    if text_in(member(address, "country_code"@)) != Some("de"@) {
        None
    } else if text_in(member(address, "city"@)) is Some {
        text_in(member(address, "city"@))
    } else if text_in(member(address, "town"@)) is Some {
        text_in(member(address, "town"@))
    } else {
        text_in(member(address, "village"@))
    }
}

/// The town at a place in Germany.
pub fn town_at(place: &Json) -> (r: Option<String>)
    ensures
        r.deep_view() == town_of(*place),
{
    let none = Json::Null;
    let address = match place.get("address") {
        Some(a) => a,
        None => &none,
    };
    match address.text_of("country_code") {
        Some(code) => if !str_same(code, "de") {
            return None;
        },
        None => {
            return None;
        },
    }
    let city = match address.text_of("city") {
        Some(t) => Some(t),
        None => match address.text_of("town") {
            Some(t) => Some(t),
            None => address.text_of("village"),
        },
    };
    match city {
        Some(t) => Some(t.to_owned()),
        None => None,
    }
}

/// The town at a place in Germany, given the answer to what is there.
pub fn german_town(body: &str) -> (r: Option<String>)
    ensures
        r.deep_view() == match document_in(body@) {
            Some(j) => town_of(j),
            None => None,
        },
{
    match parse_json(body) {
        Some(j) => town_at(&j),
        None => None,
    }
}

/// The address that the key of a municipality comes from.
pub fn ags_search_url(city: &str) -> (r: String)
    ensures
        r@ == "https://nina.api.bund.de/api31/completion/search?q="@ + url_encoded(city@),
{
    let mut out = "https://nina.api.bund.de/api31/completion/search?q=".to_owned();
    out.append(url_encode(city).as_str());
    out
}

/// The key of the first of some municipalities.
pub fn ags_in(places: &Json) -> (r: Option<String>)
    ensures
        r.deep_view() == text_in(member(element(*places, 0), "id"@)),
{
    match places.at(0) {
        Some(first) => match first.text_of("id") {
            Some(t) => Some(t.to_owned()),
            None => None,
        },
        None => None,
    }
}

/// The key of the first municipality in an answer.
pub fn first_ags(body: &str) -> (r: Option<String>)
    ensures
        r.deep_view() == match document_in(body@) {
            Some(j) => text_in(member(element(j, 0), "id"@)),
            None => None,
        },
{
    match parse_json(body) {
        Some(j) => ags_in(&j),
        None => None,
    }
}

// ---------------------------------------------------------------------------
// Sending
// ---------------------------------------------------------------------------

/// What is known of an alert.
#[derive(Clone, Copy, PartialEq, Eq, Structural)]
pub enum AlertEvent {
    /// It came up in a poll.
    Found {
        /// Whether an alert with its key was sent before.
        seen: bool,
    },
    /// It was posted.
    Posted {
        /// Whether it arrived.
        delivered: bool,
    },
}

/// What is done with an alert.
#[derive(Clone, Copy, PartialEq, Eq, Structural)]
pub enum AlertAction {
    /// Nothing: it was sent before.
    Skip,
    /// It is posted.
    Post,
    /// It is noted that it was sent.
    Mark,
    /// Nothing until the next poll.
    Leave,
}

/// What is done with an alert: one that was sent before is skipped, any other is posted;
/// what arrived is noted as sent, and what did not is left for the next poll.
pub open spec fn action_for(event: AlertEvent) -> AlertAction {
    match event {
        AlertEvent::Found { seen } => if seen {
            AlertAction::Skip
        } else {
            AlertAction::Post
        },
        AlertEvent::Posted { delivered } => if delivered {
            AlertAction::Mark
        } else {
            AlertAction::Leave
        },
    }
}

/// What is done with an alert.
pub fn alert_action(event: AlertEvent) -> (r: AlertAction)
    ensures
        r == action_for(event),
{
    match event {
        AlertEvent::Found { seen } => if seen {
            AlertAction::Skip
        } else {
            AlertAction::Post
        },
        AlertEvent::Posted { delivered } => if delivered {
            AlertAction::Mark
        } else {
            AlertAction::Leave
        },
    }
}

/// Whether an alert is posted in a poll, given the keys of those that were sent before.
pub open spec fn is_posted(sent: Set<Seq<char>>, key: Seq<char>) -> bool {
    action_for(AlertEvent::Found { seen: sent.contains(key) }) == AlertAction::Post
}

/// The keys of the alerts that were sent, after a poll in which one came up and would
/// arrive, or not.
pub open spec fn sent_after(sent: Set<Seq<char>>, key: Seq<char>, delivered: bool) -> Set<
    Seq<char>,
> {
    if is_posted(sent, key) && action_for(AlertEvent::Posted { delivered }) == AlertAction::Mark {
        sent.insert(key)
    } else {
        sent
    }
}

// ---------------------------------------------------------------------------
// Laws
// ---------------------------------------------------------------------------

/// How many colons are in a text.
pub open spec fn colons(s: Seq<char>) -> nat
    decreases s.len(),
{
    if s.len() == 0 {
        0
    } else {
        colons(s.drop_last()) + (if s.last() == ':' {
            1nat
        } else {
            0
        })
    }
}

proof fn lemma_colons_of_prefix(s: Seq<char>, n: int)
    requires
        0 <= n < s.len(),
        s[n] == ':',
    ensures
        colons(s.take(n)) < colons(s),
    decreases s.len(),
{
    if n == s.len() - 1 {
        assert(s.take(n) == s.drop_last());
    } else {
        lemma_colons_of_prefix(s.drop_last(), n);
        assert(s.drop_last().take(n) == s.take(n));
    }
}

/// A text before a colon can be told from what is behind it by how many colons are
/// in it.
pub proof fn lemma_colon_between(a: Seq<char>, x: Seq<char>, b: Seq<char>, y: Seq<char>)
    requires
        a + seq![':'] + x == b + seq![':'] + y,
        colons(a) == colons(b),
    ensures
        a == b,
        x == y,
{
    let all = a + seq![':'] + x;
    let other = b + seq![':'] + y;
    if a.len() < b.len() {
        assert(b[a.len() as int] == other[a.len() as int]);
        assert(all[a.len() as int] == ':');
        assert(b.take(a.len() as int) == other.take(a.len() as int));
        assert(a == all.take(a.len() as int));
        lemma_colons_of_prefix(b, a.len() as int);
    } else if b.len() < a.len() {
        assert(a[b.len() as int] == all[b.len() as int]);
        assert(other[b.len() as int] == ':');
        assert(a.take(b.len() as int) == all.take(b.len() as int));
        assert(b == other.take(b.len() as int));
        lemma_colons_of_prefix(a, b.len() as int);
    } else {
        assert(a =~= all.take(a.len() as int));
        assert(b =~= other.take(a.len() as int));
        assert(x =~= all.skip(a.len() as int + 1));
        assert(y =~= other.skip(a.len() as int + 1));
    }
}

proof fn lemma_key_parts(
    front: Seq<char>,
    s: Seq<char>,
    e: Seq<char>,
    x: Seq<char>,
    v: Seq<char>,
    colon: Seq<char>,
)
    ensures
        front + s + colon + e + colon + x + colon + v == front + (s + colon + (e + colon + (x
            + colon + v))),
{
    let t = x + colon + v;
    assert(front + s + colon + e + colon + x + colon + v =~= front + s + colon + e + colon + t);
    let u = e + colon + t;
    assert(front + s + colon + e + colon + t =~= front + s + colon + u);
    assert(front + s + colon + u =~= front + (s + colon + u));
}

/// A change of one of the times or of the severity of a warning changes its key, so
/// that an updated warning is sent again: as long as the times have as many colons
/// as before, which keeps the parts of the key apart.
pub proof fn law_updated_warnings_have_other_keys(id: Seq<char>, old_data: Json, new_data: Json)
    requires
        colons(text_or(old_data, "sent"@, ""@)) == colons(text_or(new_data, "sent"@, ""@)),
        colons(text_or(old_data, "effective"@, ""@)) == colons(
            text_or(new_data, "effective"@, ""@),
        ),
        colons(text_or(old_data, "expires"@, ""@)) == colons(text_or(new_data, "expires"@, ""@)),
        text_or(old_data, "sent"@, ""@) != text_or(new_data, "sent"@, ""@) || text_or(
            old_data,
            "effective"@,
            ""@,
        ) != text_or(new_data, "effective"@, ""@) || text_or(old_data, "expires"@, ""@)
            != text_or(new_data, "expires"@, ""@) || text_or(old_data, "severity"@, ""@)
            != text_or(new_data, "severity"@, ""@),
    ensures
        nina_key(id, old_data) != nina_key(id, new_data),
{
    reveal_strlit(":");
    let colon = seq![':'];
    assert(":"@ == colon);
    let (s, e, x, v) = (
        text_or(old_data, "sent"@, ""@),
        text_or(old_data, "effective"@, ""@),
        text_or(old_data, "expires"@, ""@),
        text_or(old_data, "severity"@, ""@),
    );
    let (s2, e2, x2, v2) = (
        text_or(new_data, "sent"@, ""@),
        text_or(new_data, "effective"@, ""@),
        text_or(new_data, "expires"@, ""@),
        text_or(new_data, "severity"@, ""@),
    );
    if nina_key(id, old_data) == nina_key(id, new_data) {
        let front = "nina:"@ + id + colon;
        let n = front.len() as int;
        let (t, t2) = (x + colon + v, x2 + colon + v2);
        let (u, u2) = (e + colon + t, e2 + colon + t2);
        lemma_key_parts(front, s, e, x, v, colon);
        lemma_key_parts(front, s2, e2, x2, v2, colon);
        assert((front + (s + colon + u)).skip(n) =~= s + colon + u);
        assert((front + (s2 + colon + u2)).skip(n) =~= s2 + colon + u2);
        lemma_colon_between(s, u, s2, u2);
        lemma_colon_between(e, t, e2, t2);
        lemma_colon_between(x, v, x2, v2);
    }
}

/// An alert that arrived is not posted again, whatever comes up in between, and stays
/// noted as sent.
pub proof fn law_alerts_are_sent_once(
    sent: Set<Seq<char>>,
    key: Seq<char>,
    other: Seq<char>,
    delivered: bool,
)
    ensures
        !is_posted(sent_after(sent, key, true), key),
        !is_posted(sent_after(sent_after(sent, key, true), other, delivered), key),
{
}

/// An alert that did not arrive is posted again at the next poll, and changes nothing
/// until then.
pub proof fn law_alerts_that_fail_are_retried(sent: Set<Seq<char>>, key: Seq<char>)
    ensures
        sent_after(sent, key, false) == sent,
        is_posted(sent, key) ==> is_posted(sent_after(sent, key, false), key),
{
}

/// An alert in plain text says what happened, how it is described, where to read on and who
/// says so.
pub proof fn law_plain_alerts_say_it_all(
    source: Seq<char>,
    event: Seq<char>,
    description: Seq<char>,
    link: Option<Seq<char>>,
)
    ensures
        occurs(alert_plain(source, event, description, link), event),
        occurs(alert_plain(source, event, description, link), description),
        link matches Some(l) ==> occurs(alert_plain(source, event, description, link), l),
        ends_with(alert_plain(source, event, description, link), "Source: "@ + source),
{
    let all = alert_plain(source, event, description, link);
    let linked = match link {
        Some(l) => "\n🔗 "@ + l,
        None => seq![],
    };
    let a = "🚨 "@ + event;
    let b = a + "\n"@ + description;
    let c = b + linked;
    let d = c + "\nSource: "@;
    assert(all == d + source);
    lemma_added("🚨 "@, event);
    lemma_kept(a, "\n"@, event);
    lemma_kept(a + "\n"@, description, event);
    lemma_kept(b, linked, event);
    lemma_kept(c, "\nSource: "@, event);
    lemma_kept(d, source, event);
    lemma_added(a + "\n"@, description);
    lemma_kept(b, linked, description);
    lemma_kept(c, "\nSource: "@, description);
    lemma_kept(d, source, description);
    if let Some(l) = link {
        lemma_added("\n🔗 "@, l);
        lemma_added(b, linked);
        lemma_occurs_within(c, linked, l);
        lemma_kept(c, "\nSource: "@, l);
        lemma_kept(d, source, l);
    }
    let end = "Source: "@ + source;
    reveal_strlit("\nSource: ");
    reveal_strlit("Source: ");
    assert("\nSource: "@.skip(1) == "Source: "@);
    assert(all.subrange(all.len() - end.len(), all.len() as int) == end);
}

/// An alert in HTML says what happened, how it is described with a break for each line end,
/// where to read on and who says so, each escaped.
pub proof fn law_html_alerts_say_it_all(
    source: Seq<char>,
    event: Seq<char>,
    description: Seq<char>,
    link: Option<Seq<char>>,
)
    ensures
        occurs(alert_html(source, event, description, link), escape(event)),
        occurs(
            alert_html(source, event, description, link),
            replace(escape(description), "\n"@, "<br>"@),
        ),
        link matches Some(l) ==> occurs(
            alert_html(source, event, description, link),
            "<a href=\""@ + escape(l) + "\">"@ + escape(l) + "</a>"@,
        ),
        occurs(alert_html(source, event, description, link), escape(source)),
{
    let all = alert_html(source, event, description, link);
    let lines = replace(escape(description), "\n"@, "<br>"@);
    let linked = match link {
        Some(l) => "<br>🔗 <a href=\""@ + escape(l) + "\">"@ + escape(l) + "</a>"@,
        None => seq![],
    };
    let title = escape(event);
    let a = "<b>🚨 "@ + title;
    let b = a + "</b><br>"@ + lines;
    let c = b + linked;
    let d = c + "<br><em>Source: "@;
    let e = d + escape(source);
    assert(all == e + "</em>"@);
    lemma_added("<b>🚨 "@, title);
    lemma_kept(a, "</b><br>"@, title);
    lemma_kept(a + "</b><br>"@, lines, title);
    lemma_kept(b, linked, title);
    lemma_kept(c, "<br><em>Source: "@, title);
    lemma_kept(d, escape(source), title);
    lemma_kept(e, "</em>"@, title);
    lemma_added(a + "</b><br>"@, lines);
    lemma_kept(b, linked, lines);
    lemma_kept(c, "<br><em>Source: "@, lines);
    lemma_kept(d, escape(source), lines);
    lemma_kept(e, "</em>"@, lines);
    lemma_added(d, escape(source));
    lemma_kept(e, "</em>"@, escape(source));
    if let Some(l) = link {
        let tag = "<a href=\""@ + escape(l) + "\">"@ + escape(l) + "</a>"@;
        reveal_strlit("<br>🔗 <a href=\"");
        reveal_strlit("<br>🔗 ");
        reveal_strlit("<a href=\"");
        assert("<br>🔗 <a href=\""@ == "<br>🔗 "@ + "<a href=\""@);
        assert(linked == "<br>🔗 "@ + tag);
        lemma_added("<br>🔗 "@, tag);
        lemma_added(b, linked);
        lemma_occurs_within(c, linked, tag);
        lemma_kept(c, "<br><em>Source: "@, tag);
        lemma_kept(d, escape(source), tag);
        lemma_kept(e, "</em>"@, tag);
    }
}

/// Whether a sentence of a text stands from one position to another: it begins at the start of
/// the text or behind another sentence, and ends with the first character that ends one.
pub open spec fn is_sentence(text: Seq<char>, start: int, end: int) -> bool {
    &&& 0 <= start <= end < text.len()
    &&& start == 0 || ends_sentence(text[start - 1])
    &&& ends_sentence(text[end])
    &&& forall|j: int| start <= j < end ==> !ends_sentence(#[trigger] text[j])
}

/// Whether a text is one of the sentences of another one, without the white space around it.
pub open spec fn is_sentence_of(s: Seq<char>, text: Seq<char>) -> bool {
    exists|start: int, end: int| #[trigger]
        is_sentence(text, start, end) && s == trimmed(text.subrange(start, end + 1))
}

proof fn lemma_sentences(text: Seq<char>, start: int, i: int, found: Seq<Seq<char>>, max: int)
    requires
        0 <= start <= i,
        start <= text.len(),
        start == 0 || ends_sentence(text[start - 1]),
        forall|j: int| start <= j < i && j < text.len() ==> !ends_sentence(#[trigger] text[j]),
        found.no_duplicates(),
        found.len() < max || found.len() == 0,
        forall|k: int| 0 <= k < found.len() ==> is_sentence_of(#[trigger] found[k], text),
    ensures
        ({
            let r = sentences_from(text, start, i, found, max);
            &&& r.no_duplicates()
            &&& r.len() <= max || r.len() <= 1
            &&& r.len() >= found.len()
            &&& forall|k: int| 0 <= k < found.len() ==> #[trigger] r[k] == found[k]
            &&& forall|k: int| 0 <= k < r.len() ==> is_sentence_of(#[trigger] r[k], text)
            &&& forall|a: int, b: int| #[trigger]
                is_sentence(text, a, b) && a >= start ==> r.len() >= max || r.contains(
                    trimmed(text.subrange(a, b + 1)),
                )
        }),
    decreases text.len() - i,
{
    let r = sentences_from(text, start, i, found, max);
    if i >= text.len() {
        assert forall|a: int, b: int| #[trigger] is_sentence(text, a, b) && a >= start implies r.len()
            >= max || r.contains(trimmed(text.subrange(a, b + 1))) by {
            assert(ends_sentence(text[b]));
            assert(!ends_sentence(text[b]));
        }
    } else if ends_sentence(text[i]) {
        let s = trimmed(text.subrange(start, i + 1));
        assert(is_sentence(text, start, i));
        assert(is_sentence_of(s, text));
        let more = if s.len() > 0 && !found.contains(s) {
            found.push(s)
        } else {
            found
        };
        lemma_sentence_is_not_blank(text, start, i);
        assert(more.contains(s)) by {
            if !found.contains(s) {
                assert(more[found.len() as int] == s);
            }
        }
        assert(more.no_duplicates()) by {
            assert forall|p: int, q: int|
                0 <= p < more.len() && 0 <= q < more.len() && p != q implies more[p] != more[q] by {
                if p < found.len() && q < found.len() {
                    assert(found[p] != found[q]);
                } else if p < found.len() {
                    assert(found.contains(found[p]));
                } else {
                    assert(found.contains(found[q]));
                }
            }
        }
        assert forall|k: int| 0 <= k < more.len() implies is_sentence_of(#[trigger] more[k], text) by {
            if k < found.len() {
                assert(more[k] == found[k]);
            }
        }
        if more.len() < max {
            lemma_sentences(text, i + 1, i + 1, more, max);
        }
        assert forall|a: int, b: int| #[trigger] is_sentence(text, a, b) && a >= start implies r.len()
            >= max || r.contains(trimmed(text.subrange(a, b + 1))) by {
            if a <= i {
                if a > start {
                    assert(!ends_sentence(text[a - 1]));
                }
                assert(a == start);
                if b < i {
                    assert(!ends_sentence(text[b]));
                } else if b > i {
                    assert(!ends_sentence(text[i]));
                }
                assert(b == i);
                let k = choose|k: int| 0 <= k < more.len() && more[k] == s;
                assert(r[k] == s);
            }
        }
    } else {
        lemma_sentences(text, start, i + 1, found, max);
    }
}

proof fn lemma_sentence_is_not_blank(text: Seq<char>, start: int, i: int)
    requires
        0 <= start <= i < text.len(),
        ends_sentence(text[i]),
    ensures
        trimmed(text.subrange(start, i + 1)).len() > 0,
{
    let raw = text.subrange(start, i + 1);
    law_trimming_takes_the_ends(raw, CharClass::Space);
    assert(raw[i - start] == text[i]);
    assert(!CharClass::Space.holds(raw[i - start]));
}

/// A text is shortened to its first sentences, each once: no more than asked for, none but its
/// own, and all of them where they are fewer. A text without a sentence stays as it is, but for
/// its white space, and only a blank one says nothing.
pub proof fn law_texts_are_shortened(text: Seq<char>, max: int)
    requires
        max >= 1,
    ensures
        concise(text, max) is None <==> words(text).len() == 0,
        ({
            let t = join(words(text), " "@);
            let found = sentences_from(t, 0, 0, seq![], max);
            &&& found.len() <= max
            &&& found.no_duplicates()
            &&& forall|k: int| 0 <= k < found.len() ==> is_sentence_of(#[trigger] found[k], t)
            &&& forall|a: int, b: int| #[trigger]
                is_sentence(t, a, b) ==> found.len() >= max || found.contains(
                    trimmed(t.subrange(a, b + 1)),
                )
            &&& words(text).len() > 0 && found.len() > 0 ==> concise(text, max) == Some(
                join(found, " "@),
            )
            &&& words(text).len() > 0 && found.len() == 0 ==> concise(text, max) == Some(t)
        }),
{
    let t = join(words(text), " "@);
    lemma_sentences(t, 0, 0, seq![], max);
    law_white_space_parts_words(text, ' ', seq![]);
    if words(text).len() > 0 {
        law_joined_parts_are_kept(words(text), " "@, 0);
        assert(words(text)[0].len() > 0);
    }
}

/// What is said of a warning names its area, the time that it holds for, what it is about and
/// what to do, as far as they are known.
pub proof fn law_warnings_say_what_is_known(data: Json, valid: Option<Seq<char>>)
    ensures
        text_in(member(element(member(data, "area"@), 0), "areaDesc"@)) matches Some(area) ==> occurs(
            nina_text(data, valid),
            area,
        ),
        valid matches Some(v) ==> occurs(nina_text(data, valid), v),
        text_in(member(data, "description"@)) matches Some(d) ==> (concise(d, 2) matches Some(s)
            ==> occurs(nina_text(data, valid), s)),
        text_in(member(data, "instruction"@)) matches Some(d) ==> (concise(d, 2) matches Some(s)
            ==> occurs(nina_text(data, valid), s)),
{
    let a = marked("📍 "@, nina_area(data));
    let b = marked("🕒 "@, valid);
    let c = marked("ℹ️ "@, concise(text_or(data, "description"@, ""@), 2));
    let d = marked("✅ "@, concise(text_or(data, "instruction"@, ""@), 2));
    let parts = a + b + c + d;
    if let Some(t) = nina_area(data) {
        assert(parts[0] == a[0]);
        lemma_marked(parts, "\n"@, "📍 "@, t, 0);
    }
    if let Some(t) = valid {
        assert(parts[a.len() as int] == b[0]);
        lemma_marked(parts, "\n"@, "🕒 "@, t, a.len() as int);
    }
    if let Some(t) = concise(text_or(data, "description"@, ""@), 2) {
        assert(parts[(a + b).len() as int] == c[0]);
        lemma_marked(parts, "\n"@, "ℹ️ "@, t, (a + b).len() as int);
    }
    if let Some(t) = concise(text_or(data, "instruction"@, ""@), 2) {
        assert(parts[(a + b + c).len() as int] == d[0]);
        lemma_marked(parts, "\n"@, "✅ "@, t, (a + b + c).len() as int);
    }
}

/// What is marked in one of the lines of a text stands in the text.
pub proof fn lemma_marked(
    parts: Seq<Seq<char>>,
    sep: Seq<char>,
    mark: Seq<char>,
    text: Seq<char>,
    k: int,
)
    requires
        0 <= k < parts.len(),
        parts[k] == mark + text,
    ensures
        occurs(join(parts, sep), text),
{
    law_joined_parts_are_kept(parts, sep, k);
    lemma_added(mark, text);
    lemma_occurs_within(join(parts, sep), parts[k], text);
}

/// The warnings that count are all that have an id and were not called off, in their order.
pub proof fn law_warnings_count_unless_called_off(ws: Seq<Json>)
    ensures
        nina_counted(ws) == ws.filter(
            |w: Json|
                text_in(member(w, "id"@)) is Some && text_in(
                    member(member(member(w, "payload"@), "data"@), "msgType"@),
                ) != Some("Cancel"@),
        ),
    decreases ws.len(),
{
    reveal(Seq::filter);
    if ws.len() > 0 {
        law_warnings_count_unless_called_off(ws.drop_last());
    }
}

/// The alert for a warning has the headline of the warning, leads to its page, and is
/// recognised by its id: warnings with other ids, as long as these have as many colons, have
/// other keys.
pub proof fn law_alerts_belong_to_their_warning(a: Alert, w: Json, other: Seq<char>, data: Json)
    requires
        is_nina_alert(a, w),
        text_in(member(w, "id"@)) is Some,
    ensures
        text_in(member(member(member(w, "payload"@), "data"@), "headline"@)) matches Some(h)
            ==> a.headline@ == h && occurs(a.plain@, h) && occurs(a.html@, escape(h)),
        text_in(member(w, "id"@)) matches Some(id) ==> occurs(
            a.plain@,
            "https://warnung.bund.de/meldung/"@ + id,
        ) && occurs(a.key@, id),
        text_in(member(w, "id"@)) matches Some(id) ==> (id != other && colons(id) == colons(other)
            ==> a.key@ != nina_key(other, data)),
{
    let id = text_in(member(w, "id"@))->0;
    let own = nina_data(w);
    let headline = text_or(own, "headline"@, "Warnung"@);
    let link = Some("https://warnung.bund.de/meldung/"@ + id);
    let text = choose|text: Seq<char>| #[trigger]
        is_nina_text(text, own) && {
            &&& a.plain@ == alert_plain("NINA/warnung.bund.de"@, headline, text, link)
            &&& a.html@ == alert_html("NINA/warnung.bund.de"@, headline, text, link)
        };
    law_plain_alerts_say_it_all("NINA/warnung.bund.de"@, headline, text, link);
    law_html_alerts_say_it_all("NINA/warnung.bund.de"@, headline, text, link);
    reveal_strlit(":");
    let colon = seq![':'];
    assert(":"@ == colon);
    lemma_key_front(id, own);
    lemma_key_front(other, data);
    let x = key_rest(own);
    let y = key_rest(data);
    lemma_between("nina:"@, id, colon + x);
    assert("nina:"@ + id + (colon + x) == "nina:"@ + (id + colon + x));
    if a.key@ == nina_key(other, data) {
        let n = "nina:"@.len() as int;
        assert(("nina:"@ + (id + colon + x)).skip(n) == id + colon + x);
        assert(("nina:"@ + (other + colon + y)).skip(n) == other + colon + y);
        if colons(id) == colons(other) {
            lemma_colon_between(id, x, other, y);
        }
    }
}

/// The part of a key behind the id.
spec fn key_rest(data: Json) -> Seq<char> {
    let colon = seq![':'];
    text_or(data, "sent"@, ""@) + colon + (text_or(data, "effective"@, ""@) + colon + (text_or(
        data,
        "expires"@,
        ""@,
    ) + colon + text_or(data, "severity"@, ""@)))
}

proof fn lemma_key_front(id: Seq<char>, data: Json)
    ensures
        nina_key(id, data) == "nina:"@ + (id + seq![':'] + key_rest(data)),
{
    reveal_strlit(":");
    let colon = seq![':'];
    assert(":"@ == colon);
    let front = "nina:"@ + id + colon;
    lemma_key_parts(
        front,
        text_or(data, "sent"@, ""@),
        text_or(data, "effective"@, ""@),
        text_or(data, "expires"@, ""@),
        text_or(data, "severity"@, ""@),
        colon,
    );
    assert(front + key_rest(data) == "nina:"@ + (id + colon + key_rest(data)));
}

/// A town is found only in Germany: the city, or else the town, or else the village.
pub proof fn law_towns_are_german(place: Json)
    ensures
        text_in(member(member(place, "address"@), "country_code"@)) != Some("de"@) ==> town_of(place)
            is None,
        text_in(member(member(place, "address"@), "country_code"@)) == Some("de"@) ==> {
            let city = text_in(member(member(place, "address"@), "city"@));
            let town = text_in(member(member(place, "address"@), "town"@));
            let village = text_in(member(member(place, "address"@), "village"@));
            &&& city is Some ==> town_of(place) == city
            &&& city is None && town is Some ==> town_of(place) == town
            &&& city is None && town is None ==> town_of(place) == village
        },
{
}

} // verus!

//! Weather warnings of the German weather service, and where they hold.

use vstd::prelude::*;

use crate::alerts::{
    alert_html, alert_plain, colons, concise, concise_sentences, format_alert,
    law_plain_alerts_say_it_all, lemma_colon_between, lemma_marked, marked, opt_str, push_marked,
    text_or, text_or_default, Alert,
};
use crate::dates::{
    is_stamp, law_spans_show_both_ends, local_stamp_of_millis, second_of, show_span, span_text,
    stamp_view, Shown,
};
use crate::digest::{law_suffixes_are_taken_off, strip_suffix, without_suffix};
use crate::ieee::Real;
use crate::item::str_view;
use crate::json::{
    document_in, element, has_member, items_in, member, parse_json, real_in, text_in, whole_in,
    Json,
};
use crate::num::{decimal_int, decimal_int_of, law_minus_signs_are_written};
use crate::text::{
    append, append_str, chars_of, contains_str, copy_range, ends_with, has_prefix, is_space,
    join, join_of, lemma_nothing_to_trim, lemma_occurs_within, lowercase, occurs, occurs_at,
    starts_with, str_same, string_of, trim_end, trim_end_of, trim_of, trim_str, trimmed,
    CharClass,
};
use crate::url::{url_encode, url_encoded};

verus! {

// ---------------------------------------------------------------------------
// Reading
// ---------------------------------------------------------------------------

/// The document in an answer, which is wrapped in a call of a function.
pub open spec fn jsonp_payload(body: Seq<char>) -> Seq<char> {
    let t = trimmed(body);
    let call = "warnWetter.loadWarnings("@;
    if starts_with(t, call) {
        trim_end(without_suffix(t.skip(call.len() as int), ");"@), CharClass::Only(')'))
    } else {
        t
    }
}

/// The text of the document in an answer.
pub fn jsonp_text(body: &str) -> (r: String)
    ensures
        r@ == jsonp_payload(body@),
{
    let c = chars_of(body);
    let t = trim_of(c.as_slice(), CharClass::Space);
    if has_prefix(t.as_slice(), "warnWetter.loadWarnings(") {
        let n: usize = chars_of("warnWetter.loadWarnings(").len();
        let rest = copy_range(t.as_slice(), n, t.len());
        assert(rest@ == t@.skip(n as int));
        proof {
            reveal_strlit(");");
        }
        let open = strip_suffix(rest, ");");
        let payload = trim_end_of(open.as_slice(), CharClass::Only(')'));
        string_of(payload.as_slice())
    } else {
        string_of(t.as_slice())
    }
}

/// Reads an answer; `None` where there is no document in it.
pub fn parse_dwd_jsonp(body: &str) -> (r: Option<Json>)
    ensures
        r == document_in(jsonp_payload(body@)),
{
    parse_json(jsonp_text(body).as_str())
}

/// Whether one of the keywords, if it is not blank, stands in the name of a
/// region, whatever the case.
pub open spec fn is_region(region: Seq<char>, keywords: Seq<Seq<char>>) -> bool {
    exists|i: int|
        0 <= i < keywords.len() && {
            let k = lowercase(trimmed(#[trigger] keywords[i]));
            k.len() > 0 && occurs(lowercase(region), k)
        }
}

/// Whether one of the keywords, if it is not blank, stands in the name of a
/// region, whatever the case.
pub fn matches_region(region: &str, keywords: &[String]) -> (r: bool)
    ensures
        r == is_region(region@, keywords.deep_view()),
{
    let hay = chars_of(region.to_lowercase().as_str());
    let n: usize = keywords.len();
    let mut i: usize = 0;
    while i < n
        invariant
            0 <= i <= n,
            n == keywords@.len(),
            hay@ == lowercase(region@),
            forall|j: int|
                0 <= j < i ==> {
                    let k = lowercase(trimmed(#[trigger] keywords.deep_view()[j]));
                    !(k.len() > 0 && occurs(lowercase(region@), k))
                },
        decreases n - i,
    {
        assert(keywords.deep_view()[i as int] == keywords@[i as int]@);
        let k = trim_str(keywords[i].as_str()).as_str().to_lowercase();
        if !k.as_str().is_empty() && contains_str(hay.as_slice(), k.as_str()) {
            assert({
                let x = lowercase(trimmed(keywords.deep_view()[i as int]));
                x.len() > 0 && occurs(lowercase(region@), x)
            });
            return true;
        }
        i += 1;
    }
    false
}

// ---------------------------------------------------------------------------
// Wording
// ---------------------------------------------------------------------------

/// The value of a member, or what stands for it where there is none.
pub open spec fn whole_or(j: Json, key: Seq<char>, default: i64) -> i64 {
    match whole_in(member(j, key)) {
        Some(n) => n,
        None => default,
    }
}

fn whole_or_default(j: &Json, key: &str, default: i64) -> (r: i64)
    ensures
        r == whole_or(*j, key@, default),
{
    match j.whole_of(key) {
        Some(n) => n,
        None => default,
    }
}

/// What a warning is recognised by.
pub open spec fn dwd_key(bucket: Seq<char>, region: Seq<char>, w: Json) -> Seq<char> {
    "dwd:"@ + bucket + ":"@ + region + ":"@ + text_or(w, "event"@, "warning"@) + ":"@
        + decimal_int(whole_or(w, "start"@, 0) as int) + ":"@ + decimal_int(
        whole_or(w, "end"@, 0) as int,
    ) + ":"@ + decimal_int(whole_or(w, "level"@, 0) as int)
}

/// What a warning is recognised by.
pub fn dwd_warning_id(bucket: &str, region: &str, w: &Json) -> (r: String)
    ensures
        r@ == dwd_key(bucket@, region@, *w),
{
    let mut out: Vec<char> = Vec::new();
    append_str(&mut out, "dwd:");
    append_str(&mut out, bucket);
    append_str(&mut out, ":");
    append_str(&mut out, region);
    append_str(&mut out, ":");
    append_str(&mut out, text_or_default(w, "event", "warning"));
    append_str(&mut out, ":");
    append(&mut out, decimal_int_of(whole_or_default(w, "start", 0)).as_slice());
    append_str(&mut out, ":");
    append(&mut out, decimal_int_of(whole_or_default(w, "end", 0)).as_slice());
    append_str(&mut out, ":");
    append(&mut out, decimal_int_of(whole_or_default(w, "level", 0)).as_slice());
    assert(out@ =~= dwd_key(bucket@, region@, *w));
    string_of(out.as_slice())
}

/// The second that a millisecond is in, if there is one.
pub open spec fn second_at(millis: Option<i64>) -> Option<int> {
    match millis {
        Some(m) => Some(second_of(m as int)),
        None => None,
    }
}

/// A time span whose ends are both known.
pub open spec fn whole_span(start: Option<Shown>, end: Option<Shown>) -> Option<Seq<char>> {
    if start is Some && end is Some {
        span_text(start, end)
    } else {
        None
    }
}

/// Whether a text is the time span that a warning holds for, on the clock of
/// some machine. There is one where both ends are known.
pub open spec fn is_dwd_span(r: Option<Seq<char>>, w: Json) -> bool {
    let start = second_at(whole_in(member(w, "start"@)));
    let end = second_at(whole_in(member(w, "end"@)));
    exists|a: Option<Shown>, b: Option<Shown>| #[trigger]
        is_stamp(a, start) && #[trigger] is_stamp(b, end) && r == whole_span(a, b)
}

/// The time span that a warning holds for, on the clock of the machine.
pub fn format_dwd_validity(w: &Json) -> (r: Option<String>)
    ensures
        is_dwd_span(r.deep_view(), *w),
{
    let a = match w.whole_of("start") {
        Some(start) => local_stamp_of_millis(start),
        None => None,
    };
    let b = match w.whole_of("end") {
        Some(end) => local_stamp_of_millis(end),
        None => None,
    };
    assert(is_stamp(stamp_view(a), second_at(whole_in(member(*w, "start"@)))));
    assert(is_stamp(stamp_view(b), second_at(whole_in(member(*w, "end"@)))));
    if a.is_none() || b.is_none() {
        return None;
    }
    show_span(&a, &b)
}

/// What is said of a warning, given the time span that it holds for.
pub open spec fn dwd_text(region: Seq<char>, w: Json, valid: Option<Seq<char>>) -> Seq<char> {
    join(
        seq!["📍 "@ + region] + marked("🕒 "@, valid) + marked(
            "ℹ️ "@,
            concise(trimmed(text_or(w, "description"@, ""@)), 2),
        ) + marked("✅ "@, concise(trimmed(text_or(w, "instruction"@, ""@)), 1)),
        "\n"@,
    )
}

/// What is said of a warning, given the time span that it holds for.
pub fn dwd_description(region: &str, w: &Json, valid: Option<&str>) -> (r: String)
    ensures
        r@ == dwd_text(region@, *w, str_view(valid)),
{
    let mut lines: Vec<Vec<char>> = Vec::new();
    assert(lines.deep_view() == Seq::<Seq<char>>::empty());
    push_marked(&mut lines, "📍 ", Some(region));
    push_marked(&mut lines, "🕒 ", valid);
    let description = trim_str(text_or_default(w, "description", ""));
    let details = concise_sentences(description.as_str(), 2);
    push_marked(&mut lines, "ℹ️ ", opt_str(&details));
    let instruction = trim_str(text_or_default(w, "instruction", ""));
    let advice = concise_sentences(instruction.as_str(), 1);
    push_marked(&mut lines, "✅ ", opt_str(&advice));
    assert(lines.deep_view() =~= seq!["📍 "@ + region@] + marked("🕒 "@, str_view(valid)) + marked(
        "ℹ️ "@,
        concise(trimmed(text_or(*w, "description"@, ""@)), 2),
    ) + marked("✅ "@, concise(trimmed(text_or(*w, "instruction"@, ""@)), 1)));
    string_of(join_of(&lines, "\n").as_slice())
}

/// Whether a text is what is said of a warning, on the clock of some machine.
pub open spec fn is_dwd_text(r: Seq<char>, region: Seq<char>, w: Json) -> bool {
    exists|valid: Option<Seq<char>>| #[trigger]
        is_dwd_span(valid, w) && r == dwd_text(region, w, valid)
}

/// What is said of a warning.
pub fn format_dwd_description(region: &str, w: &Json) -> (r: String)
    ensures
        is_dwd_text(r@, region@, *w),
{
    let valid = format_dwd_validity(w);
    let out = dwd_description(region, w, opt_str(&valid));
    assert(is_dwd_span(valid.deep_view(), *w) && out@ == dwd_text(region@, *w, valid.deep_view()));
    out
}

// ---------------------------------------------------------------------------
// Warnings
// ---------------------------------------------------------------------------

/// A warning that can be sent, if it holds where the bot is.
pub struct DwdWarning {
    /// The cell that it is for.
    pub cell: String,
    /// What is sent.
    pub alert: Alert,
}

/// Whether a warning counts: it is for one of the regions, and holds now.
pub open spec fn dwd_counts(w: Json, keywords: Seq<Seq<char>>, now_ms: int) -> bool {
    &&& is_region(text_or(w, "regionName"@, ""@), keywords)
    &&& whole_or(w, "start"@, 0) <= now_ms <= whole_or(w, "end"@, i64::MAX)
}

/// The headline of a warning: its own, or else the event.
pub open spec fn dwd_headline(w: Json) -> Seq<char> {
    text_or(w, "headline"@, text_or(w, "event"@, "Wetterwarnung"@))
}

/// Whether an alert is the one for a warning, on the clock of some machine.
pub open spec fn is_dwd_alert(a: Alert, bucket: Seq<char>, w: Json) -> bool {
    let region = text_or(w, "regionName"@, ""@);
    let link = Some(
        "https://www.dwd.de/DE/wetter/warnungen_gemeinden/warnWetter_node.html"@,
    );
    &&& a.key@ == dwd_key(bucket, region, w)
    &&& a.headline@ == dwd_headline(w)
    &&& exists|text: Seq<char>| #[trigger]
        is_dwd_text(text, region, w) && {
            &&& a.plain@ == alert_plain("DWD Weather Warnings"@, dwd_headline(w), text, link)
            &&& a.html@ == alert_html("DWD Weather Warnings"@, dwd_headline(w), text, link)
        }
}

/// The warnings of a cell that count, with their bucket and cell.
pub open spec fn counted_in_cell(
    ws: Seq<Json>,
    bucket: Seq<char>,
    cell: Seq<char>,
    keywords: Seq<Seq<char>>,
    now_ms: int,
) -> Seq<(Seq<char>, Seq<char>, Json)>
    decreases ws.len(),
{
    if ws.len() == 0 {
        seq![]
    } else {
        let before = counted_in_cell(ws.drop_last(), bucket, cell, keywords, now_ms);
        if dwd_counts(ws.last(), keywords, now_ms) {
            before.push((bucket, cell, ws.last()))
        } else {
            before
        }
    }
}

/// The warnings of the first `n` cells of a bucket that count.
pub open spec fn counted_in_cells(
    cells: Seq<(String, Json)>,
    n: int,
    bucket: Seq<char>,
    keywords: Seq<Seq<char>>,
    now_ms: int,
) -> Seq<(Seq<char>, Seq<char>, Json)>
    decreases n,
{
    if n <= 0 {
        seq![]
    } else {
        let before = counted_in_cells(cells, n - 1, bucket, keywords, now_ms);
        match cells[n - 1].1 {
            Json::Array(ws) => before + counted_in_cell(
                ws@,
                bucket,
                cells[n - 1].0@,
                keywords,
                now_ms,
            ),
            _ => before,
        }
    }
}

/// The warnings of a bucket that count.
pub open spec fn counted_in_bucket(
    j: Json,
    bucket: Seq<char>,
    keywords: Seq<Seq<char>>,
    now_ms: int,
) -> Seq<(Seq<char>, Seq<char>, Json)> {
    match member(j, bucket) {
        Json::Object(cells) => counted_in_cells(
            cells@,
            cells@.len() as int,
            bucket,
            keywords,
            now_ms,
        ),
        _ => seq![],
    }
}

/// The warnings that count, with their buckets and cells: those that hold, and
/// then those that are announced.
pub open spec fn dwd_counted(j: Json, keywords: Seq<Seq<char>>, now_ms: int) -> Seq<
    (Seq<char>, Seq<char>, Json),
> {
    counted_in_bucket(j, "warnings"@, keywords, now_ms) + counted_in_bucket(
        j,
        "vorabInformation"@,
        keywords,
        now_ms,
    )
}

/// Whether warnings are the ones that count.
pub open spec fn are_dwd_warnings(
    r: Seq<DwdWarning>,
    counted: Seq<(Seq<char>, Seq<char>, Json)>,
) -> bool {
    &&& r.len() == counted.len()
    &&& forall|i: int|
        0 <= i < r.len() ==> (#[trigger] r[i]).cell@ == counted[i].1 && is_dwd_alert(
            r[i].alert,
            counted[i].0,
            counted[i].2,
        )
}

fn dwd_alert(bucket: &str, w: &Json) -> (r: Alert)
    ensures
        is_dwd_alert(r, bucket@, *w),
{
    let region = text_or_default(w, "regionName", "");
    let headline = text_or_default(w, "headline", text_or_default(w, "event", "Wetterwarnung"));
    let desc = format_dwd_description(region, w);
    let (plain, html) = format_alert(
        "DWD Weather Warnings",
        headline,
        desc.as_str(),
        Some("https://www.dwd.de/DE/wetter/warnungen_gemeinden/warnWetter_node.html"),
    );
    assert(is_dwd_text(desc@, region@, *w));
    Alert { key: dwd_warning_id(bucket, region, w), headline: headline.to_owned(), plain, html }
}

fn add_cell(
    out: &mut Vec<DwdWarning>,
    ws: &Vec<Json>,
    bucket: &str,
    cell: &String,
    keywords: &[String],
    now_ms: i64,
    Ghost(before): Ghost<Seq<(Seq<char>, Seq<char>, Json)>>,
)
    requires
        are_dwd_warnings(old(out)@, before),
    ensures
        are_dwd_warnings(
            final(out)@,
            before + counted_in_cell(
                ws@,
                bucket@,
                cell@,
                keywords.deep_view(),
                now_ms as int,
            ),
        ),
{
    let n: usize = ws.len();
    let mut i: usize = 0;
    assert(ws@.take(0) == Seq::<Json>::empty());
    assert(before + Seq::<(Seq<char>, Seq<char>, Json)>::empty() == before);
    while i < n
        invariant
            0 <= i <= n,
            n == ws@.len(),
            are_dwd_warnings(
                out@,
                before + counted_in_cell(
                    ws@.take(i as int),
                    bucket@,
                    cell@,
                    keywords.deep_view(),
                    now_ms as int,
                ),
            ),
        decreases n - i,
    {
        let w = &ws[i];
        let ghost so_far = counted_in_cell(
            ws@.take(i as int),
            bucket@,
            cell@,
            keywords.deep_view(),
            now_ms as int,
        );
        assert(ws@.take(i + 1).drop_last() == ws@.take(i as int));
        assert(ws@.take(i + 1).last() == *w);
        let start: i64 = whole_or_default(w, "start", 0);
        let end: i64 = whole_or_default(w, "end", i64::MAX);
        if matches_region(text_or_default(w, "regionName", ""), keywords) && start <= now_ms
            && now_ms <= end {
            let alert = dwd_alert(bucket, w);
            out.push(DwdWarning { cell: cell.clone(), alert });
            assert(before + so_far.push((bucket@, cell@, *w)) == (before + so_far).push(
                (bucket@, cell@, *w),
            ));
        }
        i += 1;
    }
    assert(ws@.take(n as int) == ws@);
}

fn add_bucket(
    out: &mut Vec<DwdWarning>,
    j: &Json,
    bucket: &str,
    keywords: &[String],
    now_ms: i64,
    Ghost(before): Ghost<Seq<(Seq<char>, Seq<char>, Json)>>,
)
    requires
        are_dwd_warnings(old(out)@, before),
    ensures
        are_dwd_warnings(
            final(out)@,
            before + counted_in_bucket(*j, bucket@, keywords.deep_view(), now_ms as int),
        ),
{
    assert(before + Seq::<(Seq<char>, Seq<char>, Json)>::empty() == before);
    match j.get(bucket) {
        Some(Json::Object(cells)) => {
            let n: usize = cells.len();
            let mut i: usize = 0;
            while i < n
                invariant
                    0 <= i <= n,
                    n == cells@.len(),
                    are_dwd_warnings(
                        out@,
                        before + counted_in_cells(
                            cells@,
                            i as int,
                            bucket@,
                            keywords.deep_view(),
                            now_ms as int,
                        ),
                    ),
                decreases n - i,
            {
                let ghost so_far = counted_in_cells(
                    cells@,
                    i as int,
                    bucket@,
                    keywords.deep_view(),
                    now_ms as int,
                );
                match &cells[i].1 {
                    Json::Array(ws) => {
                        add_cell(
                            out,
                            ws,
                            bucket,
                            &cells[i].0,
                            keywords,
                            now_ms,
                            Ghost(before + so_far),
                        );
                        assert((before + so_far) + counted_in_cell(
                            ws@,
                            bucket@,
                            cells@[i as int].0@,
                            keywords.deep_view(),
                            now_ms as int,
                        ) == before + (so_far + counted_in_cell(
                            ws@,
                            bucket@,
                            cells@[i as int].0@,
                            keywords.deep_view(),
                            now_ms as int,
                        )));
                    },
                    _ => {},
                }
                i += 1;
            }
        },
        _ => {},
    }
}

/// The warnings for the regions that hold now.
pub fn dwd_warnings(j: &Json, keywords: &[String], now_ms: i64) -> (r: Vec<DwdWarning>)
    ensures
        are_dwd_warnings(r@, dwd_counted(*j, keywords.deep_view(), now_ms as int)),
{
    let mut out: Vec<DwdWarning> = Vec::new();
    let ghost none = Seq::<(Seq<char>, Seq<char>, Json)>::empty();
    add_bucket(&mut out, j, "warnings", keywords, now_ms, Ghost(none));
    let ghost first = counted_in_bucket(*j, "warnings"@, keywords.deep_view(), now_ms as int);
    assert(none + first == first);
    add_bucket(&mut out, j, "vorabInformation", keywords, now_ms, Ghost(first));
    out
}

// ---------------------------------------------------------------------------
// Areas
// ---------------------------------------------------------------------------

/// The layers of the map in which the area of a cell is looked up, in order.
pub open spec fn layers() -> Seq<Seq<char>> {
    seq![
        "Warngebiete_Kreise"@,
        "Warngebiete_Gemeinden"@,
        "Warngebiete_Bundeslaender"@,
        "Warngebiete_Binnenseen"@,
        "Warngebiete_Kueste"@,
    ]
}

/// The address that the area of a cell in a layer comes from.
pub open spec fn layer_url(layer: Seq<char>, cell: Seq<char>) -> Seq<char> {
    "https://maps.dwd.de/geoserver/dwd/ows?service=WFS&version=1.1.0&request=GetFeature&typeName=dwd:"@
        + layer + "&outputFormat=application/json&CQL_FILTER=WARNCELLID%3D"@ + url_encoded(cell)
}

/// The address that the area of a cell comes from, layer by layer; `None` where
/// there are no more layers.
pub fn warning_area_url(i: usize, cell: &str) -> (r: Option<String>)
    ensures
        match r {
            Some(u) => i < layers().len() && u@ == layer_url(layers()[i as int], cell@),
            None => i >= layers().len(),
        },
{
    let layer = if i == 0 {
        "Warngebiete_Kreise"
    } else if i == 1 {
        "Warngebiete_Gemeinden"
    } else if i == 2 {
        "Warngebiete_Bundeslaender"
    } else if i == 3 {
        "Warngebiete_Binnenseen"
    } else if i == 4 {
        "Warngebiete_Kueste"
    } else {
        return None;
    };
    let mut out =
        "https://maps.dwd.de/geoserver/dwd/ows?service=WFS&version=1.1.0&request=GetFeature&typeName=dwd:".to_owned();
    out.append(layer);
    out.append("&outputFormat=application/json&CQL_FILTER=WARNCELLID%3D");
    out.append(url_encode(cell).as_str());
    Some(out)
}

/// Whether an answer holds the area of a cell: its first feature has one.
pub open spec fn has_area(answer: Json) -> bool {
    has_member(element(member(answer, "features"@), 0), "geometry"@)
}

/// The area of a cell in an answer.
pub open spec fn area_of(answer: Json) -> Json {
    member(element(member(answer, "features"@), 0), "geometry"@)
}

/// What an answer says of the area of a cell.
pub enum AreaAnswer {
    /// The polygons of the area, each of them rings of edges.
    Found(Vec<Vec<Vec<Edge>>>),
    /// There is no area in this layer.
    NotFound,
    /// It is no document.
    NotJson,
}

/// The area of a cell in an answer, if it holds one.
pub fn area_in(answer: &Json) -> (r: Option<Vec<Vec<Vec<Edge>>>>)
    ensures
        match r {
            Some(polygons) => has_area(*answer) && polygon_edges(polygons@) == polygons_in(
                area_of(*answer),
            ),
            None => !has_area(*answer),
        },
{
    let none = Json::Null;
    let features = match answer.get("features") {
        Some(f) => f,
        None => &none,
    };
    let feature = match features.at(0) {
        Some(f) => f,
        None => &none,
    };
    match feature.get("geometry") {
        Some(g) => Some(geometry_polygons(g)),
        None => None,
    }
}

/// Reads an answer after the area of a cell.
pub fn read_area_answer(body: &str) -> (r: AreaAnswer)
    ensures
        match r {
            AreaAnswer::Found(polygons) => document_in(body@) matches Some(j) && has_area(j)
                && polygon_edges(polygons@) == polygons_in(area_of(j)),
            AreaAnswer::NotFound => document_in(body@) matches Some(j) && !has_area(j),
            AreaAnswer::NotJson => document_in(body@) is None,
        },
{
    match parse_json(body) {
        Some(j) => match area_in(&j) {
            Some(polygons) => AreaAnswer::Found(polygons),
            None => AreaAnswer::NotFound,
        },
        None => AreaAnswer::NotJson,
    }
}

/// What is known of where a warning holds.
#[derive(Clone, Copy, PartialEq, Eq, Structural)]
pub enum AreaLookup {
    /// Whether the bot is inside of the area.
    Known(bool),
    /// The area is in none of the layers.
    Missing,
    /// The area could not be fetched.
    Failed,
}

/// Whether a warning is sent: it holds where the bot is, or nothing is known of
/// its area, so that the name of the region decides.
pub fn counts_as_inside(lookup: AreaLookup) -> (r: bool)
    ensures
        r == (lookup != AreaLookup::Known(false)),
{
    match lookup {
        AreaLookup::Known(inside) => inside,
        _ => true,
    }
}

/// The cells that were looked up, with whether their warnings are sent.
pub struct AreaCache {
    /// The cells; where one is there twice, the later one counts.
    pub cells: Vec<(String, bool)>,
}

/// Whether the warnings of a cell are sent, by the first `n` cells that were looked
/// up.
pub open spec fn inside_by(cells: Seq<(String, bool)>, cell: Seq<char>, n: int) -> Option<bool>
    decreases n,
{
    if n <= 0 {
        None
    } else if cells[n - 1].0@ == cell {
        Some(cells[n - 1].1)
    } else {
        inside_by(cells, cell, n - 1)
    }
}

proof fn lemma_inside_by(
    cells: Seq<(String, bool)>,
    more: Seq<(String, bool)>,
    cell: Seq<char>,
    n: int,
)
    requires
        n <= cells.len() <= more.len(),
        cells == more.take(cells.len() as int),
    ensures
        inside_by(cells, cell, n) == inside_by(more, cell, n),
    decreases n,
{
    if n > 0 {
        assert(cells[n - 1] == more[n - 1]);
        lemma_inside_by(cells, more, cell, n - 1);
    }
}

impl AreaCache {
    /// Whether the warnings of a cell are sent, if it was looked up.
    pub open spec fn inside(self, cell: Seq<char>) -> Option<bool> {
        inside_by(self.cells@, cell, self.cells@.len() as int)
    }

    /// No cell was looked up.
    pub fn new() -> (r: AreaCache)
        ensures
            forall|cell: Seq<char>| #[trigger] r.inside(cell) is None,
    {
        AreaCache { cells: Vec::new() }
    }

    /// Whether the warnings of a cell are sent, if it was looked up.
    pub fn get(&self, cell: &str) -> (r: Option<bool>)
        ensures
            r == self.inside(cell@),
    {
        let mut n: usize = self.cells.len();
        while n > 0
            invariant
                n <= self.cells@.len(),
                self.inside(cell@) == inside_by(self.cells@, cell@, n as int),
            decreases n,
        {
            if str_same(self.cells[n - 1].0.as_str(), cell) {
                return Some(self.cells[n - 1].1);
            }
            n -= 1;
        }
        None
    }

    /// Remembers what came of looking a cell up, and says whether its warnings are
    /// sent.
    pub fn remember(&mut self, cell: &str, lookup: AreaLookup) -> (r: bool)
        ensures
            r == (lookup != AreaLookup::Known(false)),
            forall|c: Seq<char>| #[trigger]
                final(self).inside(c) == if c == cell@ {
                    Some(r)
                } else {
                    old(self).inside(c)
                },
    {
        let ghost before = self.cells@;
        let inside = counts_as_inside(lookup);
        self.cells.push((cell.to_owned(), inside));
        proof {
            assert(before == self.cells@.take(before.len() as int));
            assert forall|c: Seq<char>| #[trigger]
                self.inside(c) == if c == cell@ {
                    Some(inside)
                } else {
                    inside_by(before, c, before.len() as int)
                } by {
                lemma_inside_by(before, self.cells@, c, before.len() as int);
            }
        }
        inside
    }
}

// ---------------------------------------------------------------------------
// Geometry
// ---------------------------------------------------------------------------

/// An edge of a ring, from one position to the one before it.
#[derive(Clone, Copy)]
pub struct Edge {
    /// The longitude of the one end.
    pub x1: Real,
    /// The latitude of the one end.
    pub y1: Real,
    /// The longitude of the other end.
    pub x2: Real,
    /// The latitude of the other end.
    pub y2: Real,
}

/// A position: a longitude and a latitude.
pub open spec fn position_in(j: Json) -> Option<(Real, Real)> {
    match (real_in(element(j, 0)), real_in(element(j, 1))) {
        (Some(x), Some(y)) => Some((x, y)),
        _ => None,
    }
}

/// A position.
pub fn geojson_position(j: &Json) -> (r: Option<(Real, Real)>)
    ensures
        r == position_in(*j),
{
    let lon = match j.at(0) {
        Some(Json::Number(n)) => n.real,
        _ => None,
    };
    let lat = match j.at(1) {
        Some(Json::Number(n)) => n.real,
        _ => None,
    };
    match (lon, lat) {
        (Some(x), Some(y)) => Some((x, y)),
        _ => None,
    }
}

/// The edges that end at the first `n` points of a ring. The point before the
/// first one is the last one; points that are no positions have no edges.
pub open spec fn edges_upto(points: Seq<Json>, n: int) -> Seq<Edge>
    decreases n,
{
    if n <= 0 {
        seq![]
    } else {
        let before = edges_upto(points, n - 1);
        let prev = if n == 1 {
            points.len() - 1
        } else {
            n - 2
        };
        match (position_in(points[n - 1]), position_in(points[prev])) {
            (Some((x1, y1)), Some((x2, y2))) => before.push(Edge { x1, y1, x2, y2 }),
            _ => before,
        }
    }
}

/// The edges of a ring; none where it has fewer than three points.
pub open spec fn ring_in(j: Json) -> Seq<Edge> {
    match items_in(j) {
        Some(points) => if points.len() < 3 {
            seq![]
        } else {
            edges_upto(points, points.len() as int)
        },
        None => seq![],
    }
}

/// The rings of a polygon.
pub open spec fn polygon_in(j: Json) -> Seq<Seq<Edge>> {
    match items_in(j) {
        Some(rings) => rings.map_values(|r: Json| ring_in(r)),
        None => seq![],
    }
}

/// The polygons of an area.
pub open spec fn polygons_in(geometry: Json) -> Seq<Seq<Seq<Edge>>> {
    let kind = text_in(member(geometry, "type"@));
    let coordinates = member(geometry, "coordinates"@);
    if kind == Some("Polygon"@) {
        seq![polygon_in(coordinates)]
    } else if kind == Some("MultiPolygon"@) {
        match items_in(coordinates) {
            Some(polygons) => polygons.map_values(|p: Json| polygon_in(p)),
            None => seq![],
        }
    } else {
        seq![]
    }
}

/// The edges of rings.
pub open spec fn ring_edges(rings: Seq<Vec<Edge>>) -> Seq<Seq<Edge>> {
    rings.map_values(|r: Vec<Edge>| r@)
}

/// The edges of polygons.
pub open spec fn polygon_edges(polygons: Seq<Vec<Vec<Edge>>>) -> Seq<Seq<Seq<Edge>>> {
    polygons.map_values(|p: Vec<Vec<Edge>>| ring_edges(p@))
}

fn ring_of(j: &Json) -> (r: Vec<Edge>)
    ensures
        r@ == ring_in(*j),
{
    let mut out: Vec<Edge> = Vec::new();
    match j {
        Json::Array(points) => {
            let n: usize = points.len();
            if n < 3 {
                return out;
            }
            let mut i: usize = 0;
            while i < n
                invariant
                    0 <= i <= n,
                    n == points@.len(),
                    n >= 3,
                    out@ == edges_upto(points@, i as int),
                decreases n - i,
            {
                let prev: usize = if i == 0 {
                    n - 1
                } else {
                    i - 1
                };
                match (geojson_position(&points[i]), geojson_position(&points[prev])) {
                    (Some((x1, y1)), Some((x2, y2))) => {
                        out.push(Edge { x1, y1, x2, y2 });
                    },
                    _ => {},
                }
                i += 1;
            }
            out
        },
        _ => out,
    }
}

fn polygon_of(j: &Json) -> (r: Vec<Vec<Edge>>)
    ensures
        ring_edges(r@) == polygon_in(*j),
{
    let mut out: Vec<Vec<Edge>> = Vec::new();
    assert(ring_edges(out@) == Seq::<Seq<Edge>>::empty());
    match j {
        Json::Array(rings) => {
            let n: usize = rings.len();
            let ghost all = polygon_in(*j);
            let mut i: usize = 0;
            while i < n
                invariant
                    0 <= i <= n,
                    n == rings@.len(),
                    all == rings@.map_values(|r: Json| ring_in(r)),
                    ring_edges(out@) == all.take(i as int),
                decreases n - i,
            {
                let ghost before = out@;
                let ring = ring_of(&rings[i]);
                out.push(ring);
                assert(ring_edges(out@) == ring_edges(before).push(ring@));
                assert(all.take(i + 1) == all.take(i as int).push(ring@));
                i += 1;
            }
            assert(all.take(n as int) == all);
            out
        },
        _ => out,
    }
}

/// The polygons of an area.
pub fn geometry_polygons(geometry: &Json) -> (r: Vec<Vec<Vec<Edge>>>)
    ensures
        polygon_edges(r@) == polygons_in(*geometry),
{
    let mut out: Vec<Vec<Vec<Edge>>> = Vec::new();
    assert(polygon_edges(out@) == Seq::<Seq<Seq<Edge>>>::empty());
    let none = Json::Null;
    let coordinates = match geometry.get("coordinates") {
        Some(c) => c,
        None => &none,
    };
    let kind = match geometry.text_of("type") {
        Some(k) => k,
        None => {
            return out;
        },
    };
    if str_same(kind, "Polygon") {
        let polygon = polygon_of(coordinates);
        out.push(polygon);
        assert(polygon_edges(out@) =~= seq![ring_edges(polygon@)]);
        return out;
    }
    if str_same(kind, "MultiPolygon") {
        if let Json::Array(polygons) = coordinates {
            let n: usize = polygons.len();
            let ghost all = polygons@.map_values(|p: Json| polygon_in(p));
            let mut i: usize = 0;
            while i < n
                invariant
                    0 <= i <= n,
                    n == polygons@.len(),
                    all == polygons@.map_values(|p: Json| polygon_in(p)),
                    polygon_edges(out@) == all.take(i as int),
                decreases n - i,
            {
                let ghost before = out@;
                let polygon = polygon_of(&polygons[i]);
                out.push(polygon);
                assert(polygon_edges(out@) == polygon_edges(before).push(ring_edges(polygon@)));
                assert(all.take(i + 1) == all.take(i as int).push(ring_edges(polygon@)));
                i += 1;
            }
            assert(all.take(n as int) == all);
        }
    }
    out
}

/// Whether a point is inside of a ring, given which edges a line from it
/// crosses: an odd number of them.
pub open spec fn in_ring(crossed: Seq<bool>) -> bool
    decreases crossed.len(),
{
    if crossed.len() == 0 {
        false
    } else {
        in_ring(crossed.drop_last()) != crossed.last()
    }
}

/// Whether a point is inside of a polygon: inside of its outer ring, and of none
/// of its holes.
pub open spec fn in_polygon(rings: Seq<Seq<bool>>) -> bool {
    &&& rings.len() > 0
    &&& in_ring(rings[0])
    &&& forall|i: int| 1 <= i < rings.len() ==> !in_ring(#[trigger] rings[i])
}

/// Whether a point is inside of one of the polygons.
pub open spec fn in_area(polygons: Seq<Seq<Seq<bool>>>) -> bool {
    exists|i: int| 0 <= i < polygons.len() && in_polygon(#[trigger] polygons[i])
}

/// Which edges of rings are crossed.
pub open spec fn ring_crossings(rings: Seq<Vec<bool>>) -> Seq<Seq<bool>> {
    rings.map_values(|r: Vec<bool>| r@)
}

/// Which edges of polygons are crossed.
pub open spec fn crossings(polygons: Seq<Vec<Vec<bool>>>) -> Seq<Seq<Seq<bool>>> {
    polygons.map_values(|p: Vec<Vec<bool>>| ring_crossings(p@))
}

/// Whether a point is inside of a ring, given which edges are crossed.
pub fn ring_contains_point(crossed: &[bool]) -> (r: bool)
    ensures
        r == in_ring(crossed@),
{
    let n: usize = crossed.len();
    let mut inside = false;
    let mut i: usize = 0;
    assert(crossed@.take(0) == Seq::<bool>::empty());
    while i < n
        invariant
            0 <= i <= n,
            n == crossed@.len(),
            inside == in_ring(crossed@.take(i as int)),
        decreases n - i,
    {
        assert(crossed@.take(i + 1).drop_last() == crossed@.take(i as int));
        if crossed[i] {
            inside = !inside;
        }
        i += 1;
    }
    assert(crossed@.take(n as int) == crossed@);
    inside
}

/// Whether a point is inside of a polygon, given which edges are crossed.
pub fn polygon_contains_point(rings: &[Vec<bool>]) -> (r: bool)
    ensures
        r == in_polygon(ring_crossings(rings@)),
{
    let ghost all = ring_crossings(rings@);
    let n: usize = rings.len();
    if n == 0 {
        return false;
    }
    assert(all[0] == rings@[0]@);
    if !ring_contains_point(rings[0].as_slice()) {
        return false;
    }
    let mut i: usize = 1;
    while i < n
        invariant
            1 <= i <= n,
            n == rings@.len(),
            all == ring_crossings(rings@),
            forall|k: int| 1 <= k < i ==> !in_ring(#[trigger] all[k]),
        decreases n - i,
    {
        assert(all[i as int] == rings@[i as int]@);
        if ring_contains_point(rings[i].as_slice()) {
            assert(in_ring(all[i as int]));
            return false;
        }
        i += 1;
    }
    true
}

/// Whether a point is inside of an area, given which edges of its polygons are
/// crossed.
pub fn geometry_contains_point(polygons: &[Vec<Vec<bool>>]) -> (r: bool)
    ensures
        r == in_area(crossings(polygons@)),
{
    let ghost all = crossings(polygons@);
    let n: usize = polygons.len();
    let mut i: usize = 0;
    while i < n
        invariant
            0 <= i <= n,
            n == polygons@.len(),
            all == crossings(polygons@),
            forall|k: int| 0 <= k < i ==> !in_polygon(#[trigger] all[k]),
        decreases n - i,
    {
        assert(all[i as int] == ring_crossings(polygons@[i as int]@));
        if polygon_contains_point(polygons[i].as_slice()) {
            assert(in_polygon(all[i as int]));
            return true;
        }
        i += 1;
    }
    false
}

// ---------------------------------------------------------------------------
// Laws
// ---------------------------------------------------------------------------

/// A region matters exactly if one of the keywords, wherever it is listed, stands in its name,
/// whatever the case and the white space around it; blank keywords stand in none.
pub proof fn law_any_keyword_is_enough(region: Seq<char>, keywords: Seq<Seq<char>>, i: int)
    ensures
        0 <= i < keywords.len() && lowercase(trimmed(keywords[i])).len() > 0 && occurs(
            lowercase(region),
            lowercase(trimmed(keywords[i])),
        ) ==> is_region(region, keywords),
        (forall|j: int|
            0 <= j < keywords.len() ==> lowercase(trimmed(#[trigger] keywords[j])).len() == 0
                || !occurs(lowercase(region), lowercase(trimmed(keywords[j])))) ==> !is_region(
            region,
            keywords,
        ),
{
    if 0 <= i < keywords.len() {
        let k = lowercase(trimmed(keywords[i]));
        assert(k.len() > 0 && occurs(lowercase(region), k) ==> is_region(region, keywords));
    }
}

/// A warning counts exactly while it holds, in a region that matters; without an end it holds
/// from its start on, and without a start up to its end.
pub proof fn law_warnings_count_while_they_hold(w: Json, keywords: Seq<Seq<char>>, now_ms: int)
    requires
        0 <= now_ms <= i64::MAX,
    ensures
        dwd_counts(w, keywords, now_ms) ==> (text_in(member(w, "regionName"@)) matches Some(r)
            ==> is_region(r, keywords)),
        dwd_counts(w, keywords, now_ms) ==> (whole_in(member(w, "start"@)) matches Some(s) ==> s
            <= now_ms) && (whole_in(member(w, "end"@)) matches Some(e) ==> now_ms <= e),
        (text_in(member(w, "regionName"@)) matches Some(r) && is_region(r, keywords)) && (whole_in(
            member(w, "start"@),
        ) is None || whole_in(member(w, "start"@))->0 <= now_ms) && (whole_in(member(w, "end"@))
            is None || now_ms <= whole_in(member(w, "end"@))->0) ==> dwd_counts(
            w,
            keywords,
            now_ms,
        ),
{
}

/// Whether a warning stands in a bucket of an answer, in a cell.
pub open spec fn stands_in_bucket(j: Json, bucket: Seq<char>, cell: Seq<char>, w: Json) -> bool {
    exists|i: int| #[trigger] stands_in_cell(j, bucket, cell, w, i)
}

/// Whether a warning stands in a bucket of an answer, in its cell `i`.
pub open spec fn stands_in_cell(
    j: Json,
    bucket: Seq<char>,
    cell: Seq<char>,
    w: Json,
    i: int,
) -> bool {
    &&& member(j, bucket) matches Json::Object(cells)
    &&& 0 <= i < cells@.len()
    &&& cells@[i].0@ == cell
    &&& cells@[i].1 matches Json::Array(ws)
    &&& ws@.contains(w)
}

proof fn lemma_cell(
    ws: Seq<Json>,
    bucket: Seq<char>,
    cell: Seq<char>,
    keywords: Seq<Seq<char>>,
    now_ms: int,
    x: (Seq<char>, Seq<char>, Json),
)
    ensures
        counted_in_cell(ws, bucket, cell, keywords, now_ms).contains(x) <==> x.0 == bucket && x.1
            == cell && ws.contains(x.2) && dwd_counts(x.2, keywords, now_ms),
    decreases ws.len(),
{
    if ws.len() > 0 {
        let t = ws.drop_last();
        let before = counted_in_cell(t, bucket, cell, keywords, now_ms);
        let all = counted_in_cell(ws, bucket, cell, keywords, now_ms);
        lemma_cell(t, bucket, cell, keywords, now_ms, x);
        if all.contains(x) {
            let k = choose|k: int| 0 <= k < all.len() && all[k] == x;
            if k < before.len() {
                assert(before[k] == x);
                assert(before.contains(x));
                let i = choose|i: int| 0 <= i < t.len() && t[i] == x.2;
                assert(ws[i] == x.2);
            } else {
                assert(ws[ws.len() - 1] == x.2);
            }
        }
        if x.0 == bucket && x.1 == cell && ws.contains(x.2) && dwd_counts(x.2, keywords, now_ms) {
            let i = choose|i: int| 0 <= i < ws.len() && ws[i] == x.2;
            if i < t.len() {
                assert(t[i] == x.2);
                let k = choose|k: int| 0 <= k < before.len() && before[k] == x;
                assert(all[k] == x);
            } else {
                assert(all[before.len() as int] == x);
            }
        }
    }
}

proof fn lemma_cells(
    cells: Seq<(String, Json)>,
    n: int,
    bucket: Seq<char>,
    keywords: Seq<Seq<char>>,
    now_ms: int,
    x: (Seq<char>, Seq<char>, Json),
)
    requires
        0 <= n <= cells.len(),
    ensures
        counted_in_cells(cells, n, bucket, keywords, now_ms).contains(x) <==> x.0 == bucket
            && dwd_counts(x.2, keywords, now_ms) && exists|i: int|
            0 <= i < n && holds_warning(#[trigger] cells[i], x.1, x.2),
    decreases n,
{
    if n > 0 {
        let before = counted_in_cells(cells, n - 1, bucket, keywords, now_ms);
        let all = counted_in_cells(cells, n, bucket, keywords, now_ms);
        lemma_cells(cells, n - 1, bucket, keywords, now_ms, x);
        if let Json::Array(ws) = cells[n - 1].1 {
            let more = counted_in_cell(ws@, bucket, cells[n - 1].0@, keywords, now_ms);
            lemma_cell(ws@, bucket, cells[n - 1].0@, keywords, now_ms, x);
            assert(all == before + more);
            if all.contains(x) {
                let k = choose|k: int| 0 <= k < all.len() && all[k] == x;
                if k < before.len() {
                    assert(before[k] == x);
                    assert(before.contains(x));
                } else {
                    assert(more[k - before.len()] == x);
                    assert(more.contains(x));
                    assert(holds_warning(cells[n - 1], x.1, x.2));
                }
            }
            if before.contains(x) {
                let k = choose|k: int| 0 <= k < before.len() && before[k] == x;
                assert(all[k] == x);
            }
            if more.contains(x) {
                let k = choose|k: int| 0 <= k < more.len() && more[k] == x;
                assert(all[before.len() + k] == x);
            }
        }
        if x.0 == bucket && dwd_counts(x.2, keywords, now_ms) && exists|i: int|
            0 <= i < n && holds_warning(#[trigger] cells[i], x.1, x.2) {
            let i = choose|i: int| 0 <= i < n && holds_warning(#[trigger] cells[i], x.1, x.2);
            if i < n - 1 {
                assert(before.contains(x));
            }
        }
    }
}

/// Whether a cell has a name, and a warning in it.
pub open spec fn holds_warning(cell: (String, Json), name: Seq<char>, w: Json) -> bool {
    cell.0@ == name && (cell.1 matches Json::Array(ws) && ws@.contains(w))
}

/// The warnings that count are all that hold in a region that matters, from both parts of an
/// answer: those that are in force, and those that are announced.
pub proof fn law_every_warning_counts(
    j: Json,
    keywords: Seq<Seq<char>>,
    now_ms: int,
    bucket: Seq<char>,
    cell: Seq<char>,
    w: Json,
)
    ensures
        dwd_counted(j, keywords, now_ms).contains((bucket, cell, w)) <==> dwd_counts(
            w,
            keywords,
            now_ms,
        ) && (bucket == "warnings"@ || bucket == "vorabInformation"@) && stands_in_bucket(
            j,
            bucket,
            cell,
            w,
        ),
{
    let x = (bucket, cell, w);
    let a = counted_in_bucket(j, "warnings"@, keywords, now_ms);
    let b = counted_in_bucket(j, "vorabInformation"@, keywords, now_ms);
    let all = dwd_counted(j, keywords, now_ms);
    lemma_bucket(j, "warnings"@, keywords, now_ms, x);
    lemma_bucket(j, "vorabInformation"@, keywords, now_ms, x);
    if all.contains(x) {
        let k = choose|k: int| 0 <= k < all.len() && all[k] == x;
        if k < a.len() {
            assert(a[k] == x);
            assert(a.contains(x));
        } else {
            assert(b[k - a.len()] == x);
            assert(b.contains(x));
        }
    }
    if a.contains(x) {
        let k = choose|k: int| 0 <= k < a.len() && a[k] == x;
        assert(all[k] == x);
    }
    if b.contains(x) {
        let k = choose|k: int| 0 <= k < b.len() && b[k] == x;
        assert(all[a.len() + k] == x);
    }
}

proof fn lemma_bucket(
    j: Json,
    bucket: Seq<char>,
    keywords: Seq<Seq<char>>,
    now_ms: int,
    x: (Seq<char>, Seq<char>, Json),
)
    ensures
        counted_in_bucket(j, bucket, keywords, now_ms).contains(x) <==> x.0 == bucket && dwd_counts(
            x.2,
            keywords,
            now_ms,
        ) && stands_in_bucket(j, bucket, x.1, x.2),
{
    if let Json::Object(cells) = member(j, bucket) {
        lemma_cells(cells@, cells@.len() as int, bucket, keywords, now_ms, x);
        if stands_in_bucket(j, bucket, x.1, x.2) {
            let i = choose|i: int| #[trigger] stands_in_cell(j, bucket, x.1, x.2, i);
            assert(holds_warning(cells@[i], x.1, x.2));
        }
        if exists|i: int| 0 <= i < cells@.len() && holds_warning(#[trigger] cells@[i], x.1, x.2) {
            let i = choose|i: int|
                0 <= i < cells@.len() && holds_warning(#[trigger] cells@[i], x.1, x.2);
            assert(stands_in_cell(j, bucket, x.1, x.2, i));
        }
    } else {
        assert(!stands_in_bucket(j, bucket, x.1, x.2));
    }
}

/// What is said of a warning names its region, the time that it holds for, what it is about and
/// what to do, as far as they are known.
pub proof fn law_warnings_are_described(region: Seq<char>, w: Json, valid: Option<Seq<char>>)
    ensures
        occurs(dwd_text(region, w, valid), region),
        valid matches Some(v) ==> occurs(dwd_text(region, w, valid), v),
        text_in(member(w, "description"@)) matches Some(d) ==> (concise(trimmed(d), 2) matches Some(
            s,
        ) ==> occurs(dwd_text(region, w, valid), s)),
        text_in(member(w, "instruction"@)) matches Some(d) ==> (concise(trimmed(d), 1) matches Some(
            s,
        ) ==> occurs(dwd_text(region, w, valid), s)),
{
    let a = seq!["📍 "@ + region];
    let b = marked("🕒 "@, valid);
    let c = marked("ℹ️ "@, concise(trimmed(text_or(w, "description"@, ""@)), 2));
    let d = marked("✅ "@, concise(trimmed(text_or(w, "instruction"@, ""@)), 1));
    let parts = a + b + c + d;
    assert(parts[0] == a[0]);
    lemma_marked(parts, "\n"@, "📍 "@, region, 0);
    if let Some(t) = valid {
        assert(parts[1] == b[0]);
        lemma_marked(parts, "\n"@, "🕒 "@, t, 1);
    }
    if let Some(t) = concise(trimmed(text_or(w, "description"@, ""@)), 2) {
        assert(parts[(a + b).len() as int] == c[0]);
        lemma_marked(parts, "\n"@, "ℹ️ "@, t, (a + b).len() as int);
    }
    if let Some(t) = concise(trimmed(text_or(w, "instruction"@, ""@)), 1) {
        assert(parts[(a + b + c).len() as int] == d[0]);
        lemma_marked(parts, "\n"@, "✅ "@, t, (a + b + c).len() as int);
    }
}

/// The alert for a warning has the headline of the warning, or else what it warns of.
pub proof fn law_alerts_belong_to_their_warning(a: Alert, bucket: Seq<char>, w: Json)
    requires
        is_dwd_alert(a, bucket, w),
    ensures
        text_in(member(w, "headline"@)) matches Some(h) ==> a.headline@ == h && occurs(a.plain@, h),
        text_in(member(w, "headline"@)) is None ==> (text_in(member(w, "event"@)) matches Some(e)
            ==> a.headline@ == e && occurs(a.plain@, e)),
        text_in(member(w, "regionName"@)) matches Some(r) ==> occurs(a.plain@, r),
{
    let region = text_or(w, "regionName"@, ""@);
    let link = Some("https://www.dwd.de/DE/wetter/warnungen_gemeinden/warnWetter_node.html"@);
    let text = choose|text: Seq<char>| #[trigger]
        is_dwd_text(text, region, w) && {
            &&& a.plain@ == alert_plain("DWD Weather Warnings"@, dwd_headline(w), text, link)
            &&& a.html@ == alert_html("DWD Weather Warnings"@, dwd_headline(w), text, link)
        };
    law_plain_alerts_say_it_all("DWD Weather Warnings"@, dwd_headline(w), text, link);
    let valid = choose|valid: Option<Seq<char>>| #[trigger]
        is_dwd_span(valid, w) && text == dwd_text(region, w, valid);
    law_warnings_are_described(region, w, valid);
    lemma_occurs_within(a.plain@, text, region);
}

/// A point is inside of a ring exactly if an odd number of edges is crossed.
pub proof fn law_odd_crossings_are_inside(crossed: Seq<bool>)
    ensures
        in_ring(crossed) <==> crossed.filter(|c: bool| c).len() % 2 == 1,
    decreases crossed.len(),
{
    reveal(Seq::filter);
    if crossed.len() > 0 {
        law_odd_crossings_are_inside(crossed.drop_last());
    }
}

/// A point is inside of an area exactly if it is inside of the outer ring of one of its
/// polygons and of none of that polygon's holes, whichever polygon that is.
pub proof fn law_any_polygon_is_enough(polygons: Seq<Seq<Seq<bool>>>, i: int)
    ensures
        0 <= i < polygons.len() && polygons[i].len() > 0 && in_ring(polygons[i][0]) && (forall|k: int|
            1 <= k < polygons[i].len() ==> !in_ring(#[trigger] polygons[i][k])) ==> in_area(
            polygons,
        ),
        (forall|j: int|
            0 <= j < polygons.len() ==> (#[trigger] polygons[j]).len() == 0 || !in_ring(
                polygons[j][0],
            ) || exists|k: int| 1 <= k < polygons[j].len() && in_ring(#[trigger] polygons[j][k]))
            ==> !in_area(polygons),
{
    if 0 <= i < polygons.len() {
        assert(in_polygon(polygons[i]) ==> in_area(polygons));
    }
    if in_area(polygons) {
        let j = choose|j: int| 0 <= j < polygons.len() && in_polygon(#[trigger] polygons[j]);
        assert(polygons[j].len() > 0 && in_ring(polygons[j][0]));
    }
}

/// A ring of positions is closed: it has as many edges as positions, and each of them leads
/// from one position to the one before it, the first one to the last.
pub proof fn law_rings_are_closed(points: Seq<Json>, n: int, k: int)
    requires
        points.len() >= 3,
        0 <= k < n <= points.len(),
        forall|i: int| 0 <= i < points.len() ==> position_in(#[trigger] points[i]) is Some,
    ensures
        edges_upto(points, n).len() == n,
        ({
            let e = edges_upto(points, n)[k];
            let before = if k == 0 {
                points.len() - 1
            } else {
                k - 1
            };
            position_in(points[k]) == Some((e.x1, e.y1)) && position_in(points[before]) == Some(
                (e.x2, e.y2),
            )
        }),
    decreases n,
{
    lemma_edge_count(points, n - 1);
    let before = if n == 1 {
        points.len() - 1
    } else {
        n - 2
    };
    assert(position_in(points[n - 1]) is Some);
    assert(position_in(points[before]) is Some);
    if k < n - 1 {
        law_rings_are_closed(points, n - 1, k);
    }
}

proof fn lemma_edge_count(points: Seq<Json>, n: int)
    requires
        points.len() >= 3,
        0 <= n <= points.len(),
        forall|i: int| 0 <= i < points.len() ==> position_in(#[trigger] points[i]) is Some,
    ensures
        edges_upto(points, n).len() == n,
    decreases n,
{
    if n > 0 {
        lemma_edge_count(points, n - 1);
        let before = if n == 1 {
            points.len() - 1
        } else {
            n - 2
        };
        assert(position_in(points[n - 1]) is Some);
        assert(position_in(points[before]) is Some);
    }
}

/// The polygons of an area are all that it is made of: one for a polygon, and each of them for
/// a collection.
pub proof fn law_areas_have_all_their_polygons(geometry: Json, k: int)
    ensures
        text_in(member(geometry, "type"@)) == Some("Polygon"@) ==> polygons_in(geometry) == seq![
            polygon_in(member(geometry, "coordinates"@)),
        ],
        text_in(member(geometry, "type"@)) == Some("MultiPolygon"@) ==> (items_in(
            member(geometry, "coordinates"@),
        ) matches Some(ps) ==> polygons_in(geometry).len() == ps.len() && (0 <= k < ps.len() ==>
            polygons_in(geometry)[k] == polygon_in(ps[k]))),
{
    reveal_strlit("Polygon");
    reveal_strlit("MultiPolygon");
    assert("Polygon"@.len() != "MultiPolygon"@.len());
}

/// An answer without the call around it is the document in it.
pub proof fn law_documents_are_unwrapped(inner: Seq<char>)
    requires
        inner.len() > 0,
        inner.last() == '}',
        !is_space(inner[0]),
    ensures
        jsonp_payload("warnWetter.loadWarnings("@ + inner + ");"@) == inner,
{
    reveal_strlit("warnWetter.loadWarnings(");
    reveal_strlit(");");
    let call = "warnWetter.loadWarnings("@;
    let body = call + inner + ");"@;
    assert(body[0] == call[0]);
    assert(body[body.len() - 1] == ';');
    lemma_nothing_to_trim(body);
    assert(body.subrange(0, call.len() as int) == call);
    let rest = inner + ");"@;
    assert(body.skip(call.len() as int) == rest);
    law_suffixes_are_taken_off(inner, ");"@);
    assert(!ends_with(inner, ");"@)) by {
        if ends_with(inner, ");"@) {
            assert(inner.subrange(inner.len() - 2, inner.len() as int)[1] == inner.last());
        }
    }
    assert(without_suffix(rest, ");"@) == inner);
}

proof fn lemma_no_colons(s: Seq<char>)
    requires
        forall|i: int| 0 <= i < s.len() ==> #[trigger] s[i] != ':',
    ensures
        colons(s) == 0,
    decreases s.len(),
{
    if s.len() > 0 {
        let t = s.drop_last();
        assert forall|i: int| 0 <= i < t.len() implies #[trigger] t[i] != ':' by {
            assert(s[i] == t[i]);
        }
        assert(s[s.len() - 1] != ':');
        lemma_no_colons(t);
    }
}

proof fn lemma_number_in_key(n: int, m: int)
    ensures
        colons(decimal_int(n)) == 0,
        decimal_int(n) == decimal_int(m) ==> n == m,
{
    law_minus_signs_are_written(n);
    law_minus_signs_are_written(-n);
    law_minus_signs_are_written(m);
    law_minus_signs_are_written(-m);
    let a = decimal_int(n);
    let b = decimal_int(m);
    if n < 0 {
        assert(a.skip(1) == decimal_int(-n));
        assert forall|i: int| 0 <= i < a.len() implies #[trigger] a[i] != ':' by {
            if i > 0 {
                assert('0' <= decimal_int(-n)[i - 1] <= '9');
            }
        }
    } else {
        assert forall|i: int| 0 <= i < a.len() implies #[trigger] a[i] != ':' by {
            assert('0' <= a[i] <= '9');
        }
    }
    lemma_no_colons(a);
    if a == b {
        if n < 0 {
            assert(a[0] == '-');
            if m < 0 {
                assert(b.skip(1) == decimal_int(-m));
            } else {
                assert('0' <= b[0] <= '9');
            }
        } else if m < 0 {
            assert(b[0] == '-');
            assert('0' <= a[0] <= '9');
        }
    }
}

/// A change of the start, the end or the level of a warning changes its key, so that an updated
/// warning is sent again.
pub proof fn law_updated_warnings_have_other_keys(
    bucket: Seq<char>,
    region: Seq<char>,
    old_w: Json,
    new_w: Json,
)
    requires
        text_or(old_w, "event"@, "warning"@) == text_or(new_w, "event"@, "warning"@),
        dwd_key(bucket, region, old_w) == dwd_key(bucket, region, new_w),
    ensures
        whole_or(old_w, "start"@, 0) == whole_or(new_w, "start"@, 0),
        whole_or(old_w, "end"@, 0) == whole_or(new_w, "end"@, 0),
        whole_or(old_w, "level"@, 0) == whole_or(new_w, "level"@, 0),
{
    reveal_strlit(":");
    let colon = seq![':'];
    assert(":"@ == colon);
    let event = text_or(old_w, "event"@, "warning"@);
    let front = "dwd:"@ + bucket + colon + region + colon + event + colon;
    let (s, e, v) = (
        whole_or(old_w, "start"@, 0) as int,
        whole_or(old_w, "end"@, 0) as int,
        whole_or(old_w, "level"@, 0) as int,
    );
    let (s2, e2, v2) = (
        whole_or(new_w, "start"@, 0) as int,
        whole_or(new_w, "end"@, 0) as int,
        whole_or(new_w, "level"@, 0) as int,
    );
    let t = decimal_int(e) + colon + decimal_int(v);
    let t2 = decimal_int(e2) + colon + decimal_int(v2);
    let u = decimal_int(s) + colon + t;
    let u2 = decimal_int(s2) + colon + t2;
    lemma_key_tail(front, decimal_int(s), decimal_int(e), decimal_int(v), colon);
    lemma_key_tail(front, decimal_int(s2), decimal_int(e2), decimal_int(v2), colon);
    let n = front.len() as int;
    assert((front + u).skip(n) == u);
    assert((front + u2).skip(n) == u2);
    lemma_number_in_key(s, s2);
    lemma_number_in_key(s2, s);
    lemma_number_in_key(e, e2);
    lemma_number_in_key(e2, e);
    lemma_number_in_key(v, v2);
    lemma_colon_between(decimal_int(s), t, decimal_int(s2), t2);
    lemma_colon_between(decimal_int(e), decimal_int(v), decimal_int(e2), decimal_int(v2));
}

proof fn lemma_key_tail(
    front: Seq<char>,
    s: Seq<char>,
    e: Seq<char>,
    v: Seq<char>,
    colon: Seq<char>,
)
    ensures
        front + s + colon + e + colon + v == front + (s + colon + (e + colon + v)),
{
    let t = e + colon + v;
    assert(front + s + colon + e + colon + v == front + s + colon + t);
    assert(front + s + colon + t == front + (s + colon + t));
}

/// What the last lookup of a cell said is what is known of it, and nothing is known of a cell
/// that was not looked up.
pub proof fn law_the_last_lookup_counts(cells: Seq<(String, bool)>, cell: Seq<char>, n: int)
    requires
        0 <= n <= cells.len(),
    ensures
        match inside_by(cells, cell, n) {
            Some(inside) => exists|i: int|
                0 <= i < n && (#[trigger] cells[i]).0@ == cell && cells[i].1 == inside && forall|
                    j: int,
                |
                    i < j < n ==> (#[trigger] cells[j]).0@ != cell,
            None => forall|j: int| 0 <= j < n ==> (#[trigger] cells[j]).0@ != cell,
        },
    decreases n,
{
    if n > 0 {
        law_the_last_lookup_counts(cells, cell, n - 1);
        assert(cells[n - 1].0@ == cell ==> inside_by(cells, cell, n) == Some(cells[n - 1].1));
    }
}

/// The area of a cell is asked for by its number, in the layers of the districts, the
/// municipalities, the states, the lakes and the coast.
pub proof fn law_areas_are_asked_for(layer: Seq<char>, cell: Seq<char>)
    ensures
        ends_with(layer_url(layer, cell), "WARNCELLID%3D"@ + url_encoded(cell)),
        occurs(layer_url(layer, cell), "typeName=dwd:"@ + layer),
        layers().contains(layer) <==> layer == "Warngebiete_Kreise"@ || layer
            == "Warngebiete_Gemeinden"@ || layer == "Warngebiete_Bundeslaender"@ || layer
            == "Warngebiete_Binnenseen"@ || layer == "Warngebiete_Kueste"@,
{
    let front =
        "https://maps.dwd.de/geoserver/dwd/ows?service=WFS&version=1.1.0&request=GetFeature&typeName=dwd:"@;
    let middle = "&outputFormat=application/json&CQL_FILTER=WARNCELLID%3D"@;
    reveal_strlit(
        "https://maps.dwd.de/geoserver/dwd/ows?service=WFS&version=1.1.0&request=GetFeature&typeName=dwd:",
    );
    reveal_strlit("&outputFormat=application/json&CQL_FILTER=WARNCELLID%3D");
    reveal_strlit("WARNCELLID%3D");
    reveal_strlit("typeName=dwd:");
    let mark = "WARNCELLID%3D"@;
    let name = "typeName=dwd:"@;
    let url = layer_url(layer, cell);
    assert(middle.skip(middle.len() - mark.len()) == mark);
    let tail = mark + url_encoded(cell);
    lemma_ends_in(front + layer, middle, mark, url_encoded(cell));
    assert(front.skip(front.len() - name.len()) == name);
    assert(front + layer + middle + url_encoded(cell) == front + (layer + middle + url_encoded(
        cell,
    )));
    let k = front.len() - name.len();
    let wanted = name + layer;
    assert forall|i: int| 0 <= i < wanted.len() implies url[k + i] == wanted[i] by {
        if i < name.len() {
            assert(front.skip(k)[i] == front[k + i]);
        }
    }
    assert(url.subrange(k, k + wanted.len()) == wanted);
    assert(occurs_at(url, wanted, k));
    let l = layers();
    assert(l.len() == 5);
    assert(l[0] == "Warngebiete_Kreise"@ && l[1] == "Warngebiete_Gemeinden"@ && l[2]
        == "Warngebiete_Bundeslaender"@ && l[3] == "Warngebiete_Binnenseen"@ && l[4]
        == "Warngebiete_Kueste"@);
}

proof fn lemma_ends_in(a: Seq<char>, b: Seq<char>, end: Seq<char>, c: Seq<char>)
    requires
        b.len() >= end.len(),
        b.skip(b.len() - end.len()) == end,
    ensures
        ends_with(a + b + c, end + c),
{
    let s = a + b + c;
    let t = end + c;
    let k = s.len() - t.len();
    assert forall|i: int| 0 <= i < t.len() implies s[k + i] == t[i] by {
        if i < end.len() {
            assert(b.skip(b.len() - end.len())[i] == b[b.len() - end.len() + i]);
        }
    }
    assert(s.subrange(k, s.len() as int) == t);
}

/// The area of a cell is that of the first feature of an answer.
pub proof fn law_the_first_feature_counts(answer: Json)
    ensures
        member(answer, "features"@) matches Json::Array(features) ==> (if features@.len() > 0 {
            has_area(answer) == has_member(features@[0], "geometry"@) && area_of(answer) == member(
                features@[0],
                "geometry"@,
            )
        } else {
            !has_area(answer)
        }),
{
}

/// The time that a warning holds for is shown with both of its ends, or not at all.
pub proof fn law_validity_has_two_ends(start: Option<Shown>, end: Option<Shown>)
    ensures
        start is None || end is None ==> whole_span(start, end) is None,
        start is Some && end is Some ==> (whole_span(start, end) matches Some(t) && occurs(
            t,
            (start->0).long,
        ) && (occurs(t, (end->0).long) || (start->0).date == (end->0).date && occurs(
            t,
            (end->0).short,
        ))),
{
    if start is Some && end is Some {
        law_spans_show_both_ends(start->0, end->0);
    }
}

/// A ring takes at least three positions, and then has an edge for each of them.
pub proof fn law_rings_take_three_points(j: Json, points: Seq<Json>)
    requires
        items_in(j) == Some(points),
        forall|i: int| 0 <= i < points.len() ==> position_in(#[trigger] points[i]) is Some,
    ensures
        points.len() < 3 ==> ring_in(j).len() == 0,
        points.len() >= 3 ==> ring_in(j).len() == points.len(),
{
    if points.len() >= 3 {
        lemma_edge_count(points, points.len() as int);
    }
}

} // verus!

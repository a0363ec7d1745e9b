//! Earthquakes and other disasters around the world.

use vstd::prelude::*;

use crate::alerts::{
    alert_html, alert_plain, concise, concise_sentences, format_alert,
    law_plain_alerts_say_it_all, lemma_marked, marked, opt_str, push_marked, text_or,
    text_or_default, Alert,
};
use crate::dates::{
    is_stamp, local_stamp, local_stamp_of_millis, second_of, stamp_view, Shown,
};
use crate::ieee::Real;
use crate::item::{as_str_opt, str_view, text_of, FeedItem};
use crate::json::{
    document_in, element, items_in, member, parse_json, real_in, text_in, whole_in, Json,
};
use crate::text::{
    append, append_str, chars_of, copy_range, find, find_from, has_prefix, index_from, is_blank,
    join, join_of, law_joined_parts_are_kept, lemma_find_from, lemma_join_first,
    lemma_occurs_within, lowercase, occurs, occurs_at, starts_with, str_same, string_of, trim_of,
    trimmed, CharClass,
};

verus! {

// ---------------------------------------------------------------------------
// Reach
// ---------------------------------------------------------------------------

/// How old an event may be, in seconds.
pub const MAX_EVENT_AGE: i64 = 172_800;

/// Whether a distance is at most another one.
pub open spec fn at_most_far(d: Real, max: Real) -> bool {
    !d.is_nan() && !max.is_nan() && d.value() <= max.value()
}

/// Whether an event is near enough: nothing is too far away without a limit or a
/// place to measure from; and else the event needs a distance within the limit.
pub open spec fn in_reach(max_km: Option<Real>, measured: bool, distance_km: Option<Real>) -> bool {
    match max_km {
        Some(max) => !measured || (distance_km matches Some(d) && at_most_far(d, max)),
        None => true,
    }
}

/// Whether an event is near enough.
pub fn is_in_reach(max_km: Option<Real>, measured: bool, distance_km: Option<Real>) -> (r: bool)
    ensures
        r == in_reach(max_km, measured, distance_km),
{
    match max_km {
        Some(max) => {
            if !measured {
                return true;
            }
            match distance_km {
                Some(d) => !d.nan() && !max.nan() && !max.lt(d),
                None => false,
            }
        },
        None => true,
    }
}

/// The weekday, the day, the month and the time that a clock shows.
pub open spec fn long_form(stamp: Option<Shown>) -> Option<Seq<char>> {
    match stamp {
        Some(s) => Some(s.long),
        None => None,
    }
}

/// Whether a text is a point in time on the clock of some machine, if the
/// calendar reaches it.
pub open spec fn is_moment(text: Option<Seq<char>>, secs: Option<int>) -> bool {
    exists|stamp: Option<Shown>| #[trigger] is_stamp(stamp, secs) && text == long_form(stamp)
}

// ---------------------------------------------------------------------------
// Earthquakes
// ---------------------------------------------------------------------------

/// The text of a member, if it is not blank.
pub open spec fn spoken(j: Json, key: Seq<char>) -> Option<Seq<char>> {
    match text_in(member(j, key)) {
        Some(t) => if trimmed(t).len() > 0 {
            Some(t)
        } else {
            None
        },
        None => None,
    }
}

fn spoken_of<'a>(j: &'a Json, key: &str) -> (r: Option<&'a str>)
    ensures
        str_view(r) == spoken(*j, key@),
{
    match j.text_of(key) {
        Some(t) => if is_blank(t) {
            None
        } else {
            Some(t)
        },
        None => None,
    }
}

/// How strong an earthquake was, and what its alert level is.
pub open spec fn quake_details(props: Json) -> Seq<Seq<char>> {
    (match real_in(member(props, "mag"@)) {
        Some(m) => seq!["Magnitude "@ + m.text(1)],
        None => seq![],
    }) + marked("USGS alert: "@, spoken(props, "alert"@))
}

/// What is said of an earthquake, given when it was.
pub open spec fn quake_text(feature: Json, time: Option<Seq<char>>) -> Seq<char> {
    let props = member(feature, "properties"@);
    let details = quake_details(props);
    join(
        marked("📍 "@, spoken(props, "place"@)) + marked("🕒 "@, time) + (if details.len() == 0 {
            seq![]
        } else {
            seq!["ℹ️ "@ + join(details, " · "@)]
        }),
        "\n"@,
    )
}

/// What is said of an earthquake, given when it was.
pub fn usgs_description(feature: &Json, time: Option<&str>) -> (r: String)
    ensures
        r@ == quake_text(*feature, str_view(time)),
{
    let none = Json::Null;
    let props = match feature.get("properties") {
        Some(p) => p,
        None => &none,
    };
    assert(*props == member(*feature, "properties"@));
    let mut lines: Vec<Vec<char>> = Vec::new();
    assert(lines.deep_view() == Seq::<Seq<char>>::empty());
    push_marked(&mut lines, "📍 ", spoken_of(props, "place"));
    push_marked(&mut lines, "🕒 ", time);
    let mut details: Vec<Vec<char>> = Vec::new();
    assert(details.deep_view() == Seq::<Seq<char>>::empty());
    if let Some(m) = props.real_of("mag") {
        let text = string_of(m.to_text(1).as_slice());
        push_marked(&mut details, "Magnitude ", Some(text.as_str()));
    }
    push_marked(&mut details, "USGS alert: ", spoken_of(props, "alert"));
    assert(details.deep_view() =~= quake_details(*props));
    assert(details.deep_view().len() == details@.len());
    if details.len() > 0 {
        let joined = string_of(join_of(&details, " · ").as_slice());
        push_marked(&mut lines, "ℹ️ ", Some(joined.as_str()));
    }
    assert(lines.deep_view() =~= marked("📍 "@, spoken(*props, "place"@)) + marked(
        "🕒 "@,
        str_view(time),
    ) + (if quake_details(*props).len() == 0 {
        seq![]
    } else {
        seq!["ℹ️ "@ + join(quake_details(*props), " · "@)]
    }));
    string_of(join_of(&lines, "\n").as_slice())
}

/// When an earthquake was, in seconds since 1970.
pub open spec fn quake_second(feature: Json) -> Option<int> {
    match whole_in(member(member(feature, "properties"@), "time"@)) {
        Some(ms) => Some(second_of(ms as int)),
        None => None,
    }
}

/// Whether a text is what is said of an earthquake, on the clock of some machine.
pub open spec fn is_quake_text(r: Seq<char>, feature: Json) -> bool {
    exists|time: Option<Seq<char>>| #[trigger]
        is_moment(time, quake_second(feature)) && r == quake_text(feature, time)
}

/// What is said of an earthquake.
pub fn format_usgs_description(feature: &Json) -> (r: String)
    ensures
        is_quake_text(r@, *feature),
{
    let millis = match feature.get("properties") {
        Some(p) => p.whole_of("time"),
        None => None,
    };
    let stamp = match millis {
        Some(ms) => local_stamp_of_millis(ms),
        None => None,
    };
    let time = match &stamp {
        Some(s) => Some(s.long.as_str()),
        None => None,
    };
    let out = usgs_description(feature, time);
    assert(is_stamp(stamp_view(stamp), quake_second(*feature)));
    assert(is_moment(str_view(time), quake_second(*feature)) && out@ == quake_text(
        *feature,
        str_view(time),
    ));
    out
}

/// An earthquake that can be reported, if it is near enough.
pub struct UsgsEvent {
    /// The latitude.
    pub lat: Option<Real>,
    /// The longitude.
    pub lon: Option<Real>,
    /// What is sent.
    pub alert: Alert,
}

/// Whether an earthquake counts: it has an id and is not too old.
pub open spec fn quake_counts(feature: Json, cutoff_ms: int) -> bool {
    &&& text_in(member(feature, "id"@)) is Some
    &&& match whole_in(member(member(feature, "properties"@), "time"@)) {
        Some(ms) => ms >= cutoff_ms,
        None => true,
    }
}

/// The earthquakes that count.
pub open spec fn quakes_counted(features: Seq<Json>, cutoff_ms: int) -> Seq<Json>
    decreases features.len(),
{
    if features.len() == 0 {
        features
    } else {
        let before = quakes_counted(features.drop_last(), cutoff_ms);
        if quake_counts(features.last(), cutoff_ms) {
            before.push(features.last())
        } else {
            before
        }
    }
}

/// Whether an event is the one for an earthquake, on the clock of some machine.
pub open spec fn is_quake_event(e: UsgsEvent, feature: Json) -> bool {
    let props = member(feature, "properties"@);
    let coordinates = member(member(feature, "geometry"@), "coordinates"@);
    let title = text_or(props, "title"@, "Earthquake"@);
    &&& e.lon == real_in(element(coordinates, 0))
    &&& e.lat == real_in(element(coordinates, 1))
    &&& Some(e.alert.key@) == text_in(member(feature, "id"@))
    &&& e.alert.headline@ == title
    &&& exists|text: Seq<char>| #[trigger]
        is_quake_text(text, feature) && {
            let url = text_in(member(props, "url"@));
            &&& e.alert.plain@ == alert_plain("USGS Earthquakes"@, title, text, url)
            &&& e.alert.html@ == alert_html("USGS Earthquakes"@, title, text, url)
        }
}

/// Whether events are those for earthquakes, one for each that counts.
pub open spec fn are_quake_events(r: Seq<UsgsEvent>, features: Seq<Json>, cutoff_ms: int) -> bool {
    &&& r.len() == quakes_counted(features, cutoff_ms).len()
    &&& forall|i: int|
        0 <= i < r.len() ==> is_quake_event(
            #[trigger] r[i],
            quakes_counted(features, cutoff_ms)[i],
        )
}

fn quake_event(feature: &Json, id: &str) -> (r: UsgsEvent)
    requires
        text_in(member(*feature, "id"@)) == Some(id@),
    ensures
        is_quake_event(r, *feature),
{
    let none = Json::Null;
    let props = match feature.get("properties") {
        Some(p) => p,
        None => &none,
    };
    let geometry = match feature.get("geometry") {
        Some(g) => g,
        None => &none,
    };
    let coordinates = match geometry.get("coordinates") {
        Some(c) => c,
        None => &none,
    };
    let lon = match coordinates.at(0) {
        Some(Json::Number(n)) => n.real,
        _ => None,
    };
    let lat = match coordinates.at(1) {
        Some(Json::Number(n)) => n.real,
        _ => None,
    };
    let title = text_or_default(props, "title", "Earthquake");
    let desc = format_usgs_description(feature);
    let (plain, html) = format_alert(
        "USGS Earthquakes",
        title,
        desc.as_str(),
        props.text_of("url"),
    );
    assert(is_quake_text(desc@, *feature));
    UsgsEvent {
        lat,
        lon,
        alert: Alert { key: id.to_owned(), headline: title.to_owned(), plain, html },
    }
}

/// The events for earthquakes that are not older than two days.
pub fn usgs_events_of(features: &[Json], cutoff_ms: i64) -> (r: Vec<UsgsEvent>)
    ensures
        are_quake_events(r@, features@, cutoff_ms as int),
{
    let n: usize = features.len();
    let mut out: Vec<UsgsEvent> = Vec::new();
    let mut i: usize = 0;
    assert(features@.take(0) == Seq::<Json>::empty());
    while i < n
        invariant
            0 <= i <= n,
            n == features@.len(),
            are_quake_events(out@, features@.take(i as int), cutoff_ms as int),
        decreases n - i,
    {
        let f = &features[i];
        assert(features@.take(i + 1).drop_last() == features@.take(i as int));
        assert(features@.take(i + 1).last() == *f);
        let millis = match f.get("properties") {
            Some(p) => p.whole_of("time"),
            None => None,
        };
        let recent = match millis {
            Some(ms) => ms >= cutoff_ms,
            None => true,
        };
        if let Some(id) = f.text_of("id") {
            if recent {
                let event = quake_event(f, id);
                out.push(event);
            }
        }
        i += 1;
    }
    assert(features@.take(n as int) == features@);
    out
}

/// The features of an answer; none where it holds no list of them.
pub open spec fn features_in(answer: Json) -> Seq<Json> {
    match items_in(member(answer, "features"@)) {
        Some(f) => f,
        None => seq![],
    }
}

/// The millisecond before which earthquakes are too old.
pub open spec fn quake_cutoff(now: int) -> int {
    (now - MAX_EVENT_AGE) * 1000
}

/// The events for the earthquakes in an answer that are not older than two days.
pub fn usgs_events_in(answer: &Json, now: i64) -> (r: Vec<UsgsEvent>)
    requires
        i64::MIN <= (now - MAX_EVENT_AGE) * 1000 <= i64::MAX,
    ensures
        are_quake_events(r@, features_in(*answer), (now - MAX_EVENT_AGE) * 1000),
        are_quake_events(r@, features_in(*answer), quake_cutoff(now as int)),
{
    let cutoff_ms: i64 = (now - MAX_EVENT_AGE) * 1000;
    match answer.items_of("features") {
        Some(features) => usgs_events_of(features.as_slice(), cutoff_ms),
        None => {
            let none: Vec<UsgsEvent> = Vec::new();
            none
        },
    }
}

/// Reads an answer: the earthquakes that are not older than two days. `None`
/// says that the answer is no document.
pub fn read_usgs_answer(body: &str, now: i64) -> (r: Option<Vec<UsgsEvent>>)
    requires
        i64::MIN <= (now - MAX_EVENT_AGE) * 1000 <= i64::MAX,
    ensures
        match r {
            Some(events) => document_in(body@) matches Some(j) && are_quake_events(
                events@,
                features_in(j),
                (now - MAX_EVENT_AGE) * 1000,
            ),
            None => document_in(body@) is None,
        },
        r matches Some(events) ==> are_quake_events(
            events@,
            features_in(document_in(body@)->0),
            quake_cutoff(now as int),
        ),
{
    match parse_json(body) {
        Some(j) => Some(usgs_events_in(&j, now)),
        None => None,
    }
}

// ---------------------------------------------------------------------------
// Elements
// ---------------------------------------------------------------------------

/// The text of the first element with a name.
pub open spec fn tag_text(xml: Seq<char>, tag: Seq<char>) -> Option<Seq<char>> {
    let open = "<"@ + tag + ">"@;
    let close = "</"@ + tag + ">"@;
    match find(xml, open) {
        None => None,
        Some(i) => match find_from(xml, close, i + open.len()) {
            None => None,
            Some(k) => Some(trimmed(xml.subrange(i + open.len(), k))),
        },
    }
}

/// The text of the first element with a name.
pub fn xml_tag(xml: &str, tag: &str) -> (r: Option<String>)
    ensures
        r.deep_view() == tag_text(xml@, tag@),
{
    let c = chars_of(xml);
    let mut open: Vec<char> = Vec::new();
    append_str(&mut open, "<");
    append_str(&mut open, tag);
    append_str(&mut open, ">");
    assert(open@ =~= "<"@ + tag@ + ">"@);
    let mut close: Vec<char> = Vec::new();
    append_str(&mut close, "</");
    append_str(&mut close, tag);
    append_str(&mut close, ">");
    assert(close@ =~= "</"@ + tag@ + ">"@);
    let i: usize = match index_from(c.as_slice(), open.as_slice(), 0) {
        Some(i) => i,
        None => {
            return None;
        },
    };
    proof {
        lemma_find_from(c@, open@, 0);
        assert(c.len() == c@.len());
    }
    let start: usize = i + open.len();
    let end: usize = match index_from(c.as_slice(), close.as_slice(), start) {
        Some(k) => k,
        None => {
            return None;
        },
    };
    proof {
        lemma_find_from(c@, close@, start as int);
    }
    let text = copy_range(c.as_slice(), start, end);
    let t = trim_of(text.as_slice(), CharClass::Space);
    Some(string_of(t.as_slice()))
}

/// The pieces of a text between the occurrences of a separator, from `from` on.
pub open spec fn pieces(s: Seq<char>, sep: Seq<char>, from: int) -> Seq<Seq<char>>
    decreases s.len() - from,
{
    if from < 0 || from > s.len() || sep.len() == 0 {
        seq![]
    } else {
        match find_from(s, sep, from) {
            None => seq![s.skip(from)],
            Some(i) => {
                proof {
                    lemma_find_from(s, sep, from);
                }
                seq![s.subrange(from, i)] + pieces(s, sep, i + sep.len())
            },
        }
    }
}

/// The pieces of a text between the occurrences of a separator.
pub fn pieces_of(s: &[char], sep: &str) -> (r: Vec<Vec<char>>)
    requires
        sep@.len() > 0,
    ensures
        r.deep_view() == pieces(s@, sep@, 0),
{
    let mark = chars_of(sep);
    let n: usize = s.len();
    let mut out: Vec<Vec<char>> = Vec::new();
    let mut from: usize = 0;
    assert(out.deep_view() == Seq::<Seq<char>>::empty());
    assert(out.deep_view() + pieces(s@, sep@, 0) == pieces(s@, sep@, 0));
    loop
        invariant
            0 <= from <= n,
            n == s@.len(),
            n == s.len(),
            mark@ == sep@,
            sep@.len() > 0,
            out.deep_view() + pieces(s@, sep@, from as int) == pieces(s@, sep@, 0),
        decreases n - from,
    {
        let ghost before = out.deep_view();
        proof {
            lemma_find_from(s@, sep@, from as int);
        }
        match index_from(s, mark.as_slice(), from) {
            None => {
                let piece = copy_range(s, from, n);
                assert(piece@ == s@.skip(from as int));
                out.push(piece);
                assert(out.deep_view() == before.push(piece@)) by {
                    assert(piece.deep_view() == piece@);
                }
                assert(before + seq![piece@] == before.push(piece@));
                return out;
            },
            Some(i) => {
                let piece = copy_range(s, from, i);
                out.push(piece);
                assert(out.deep_view() == before.push(piece@)) by {
                    assert(piece.deep_view() == piece@);
                }
                from = i + mark.len();
                assert(before + (seq![piece@] + pieces(s@, sep@, from as int)) == before.push(
                    piece@,
                ) + pieces(s@, sep@, from as int));
            },
        }
    }
}

// ---------------------------------------------------------------------------
// Disasters
// ---------------------------------------------------------------------------

/// Where an event is, with its coordinates as they are written.
pub struct GdacsPosition {
    /// What the event is recognised by.
    pub guid: String,
    /// The latitude.
    pub lat: String,
    /// The longitude.
    pub lon: String,
}

/// What positions say.
pub open spec fn positions_view(s: Seq<GdacsPosition>) -> Seq<(Seq<char>, Seq<char>, Seq<char>)> {
    s.map_values(|p: GdacsPosition| (p.guid@, p.lat@, p.lon@))
}

/// The part of a piece that belongs to an item: what is before its end.
pub open spec fn item_part(piece: Seq<char>) -> Seq<char> {
    match find(piece, "</item>"@) {
        Some(i) => piece.take(i),
        None => piece,
    }
}

/// Where the item in a piece is, if it says so.
pub open spec fn position_of_piece(piece: Seq<char>) -> Option<(Seq<char>, Seq<char>, Seq<char>)> {
    let item = item_part(piece);
    match (tag_text(item, "guid"@), tag_text(item, "geo:lat"@), tag_text(item, "geo:long"@)) {
        (Some(g), Some(a), Some(b)) => Some((g, a, b)),
        _ => None,
    }
}

/// Where the items in the pieces from 1 to `n` are, as far as they say so.
pub open spec fn positions_upto(ps: Seq<Seq<char>>, n: int) -> Seq<
    (Seq<char>, Seq<char>, Seq<char>),
>
    decreases n,
{
    if n <= 1 {
        seq![]
    } else {
        let before = positions_upto(ps, n - 1);
        match position_of_piece(ps[n - 1]) {
            Some(p) => before.push(p),
            None => before,
        }
    }
}

/// Where the items of a feed are, as far as they say so.
pub open spec fn positions_in(xml: Seq<char>) -> Seq<(Seq<char>, Seq<char>, Seq<char>)> {
    let ps = pieces(xml, "<item>"@, 0);
    positions_upto(ps, ps.len() as int)
}

/// Where the items of a feed are, as far as they say so.
pub fn gdacs_positions(xml: &str) -> (r: Vec<GdacsPosition>)
    ensures
        positions_view(r@) == positions_in(xml@),
{
    proof {
        reveal_strlit("<item>");
    }
    let c = chars_of(xml);
    let ps = pieces_of(c.as_slice(), "<item>");
    let ghost all = ps.deep_view();
    let mark = chars_of("</item>");
    let n: usize = ps.len();
    let mut out: Vec<GdacsPosition> = Vec::new();
    assert(positions_view(out@) == Seq::<(Seq<char>, Seq<char>, Seq<char>)>::empty());
    let mut i: usize = 1;
    while i < n
        invariant
            1 <= i,
            i <= n || n == 0,
            n == ps@.len(),
            all == ps.deep_view(),
            mark@ == "</item>"@,
            n == 0 ==> i == 1,
            positions_view(out@) == positions_upto(all, i as int),
        decreases n - i,
    {
        let piece = &ps[i];
        assert(all[i as int] == piece@);
        let ghost before = out@;
        proof {
            lemma_find_from(piece@, mark@, 0);
        }
        let end: usize = match index_from(piece.as_slice(), mark.as_slice(), 0) {
            Some(k) => k,
            None => piece.len(),
        };
        let item = string_of(copy_range(piece.as_slice(), 0, end).as_slice());
        assert(item@ =~= item_part(piece@));
        match (
            xml_tag(item.as_str(), "guid"),
            xml_tag(item.as_str(), "geo:lat"),
            xml_tag(item.as_str(), "geo:long"),
        ) {
            (Some(guid), Some(lat), Some(lon)) => {
                out.push(GdacsPosition { guid, lat, lon });
                assert(positions_view(out@) == positions_view(before).push(
                    (guid@, lat@, lon@),
                ));
            },
            _ => {},
        }
        i += 1;
    }
    assert(positions_upto(all, 0) == positions_upto(all, 1));
    assert(all.len() == n);
    out
}

/// The coordinates of the last of the first `n` positions with a guid whose
/// coordinates are numbers.
pub open spec fn located(
    positions: Seq<GdacsPosition>,
    coords: Seq<(Option<Real>, Option<Real>)>,
    guid: Seq<char>,
    n: int,
) -> Option<(Real, Real)>
    decreases n,
{
    if n <= 0 {
        None
    } else {
        match coords[n - 1] {
            (Some(lat), Some(lon)) if positions[n - 1].guid@ == guid => Some((lat, lon)),
            _ => located(positions, coords, guid, n - 1),
        }
    }
}

/// The coordinates of an event, given what the coordinates of each position are
/// read as.
pub fn gdacs_coords(
    positions: &[GdacsPosition],
    coords: &[(Option<Real>, Option<Real>)],
    guid: &str,
) -> (r: Option<(Real, Real)>)
    requires
        positions@.len() == coords@.len(),
    ensures
        r == located(positions@, coords@, guid@, positions@.len() as int),
{
    let mut n: usize = positions.len();
    while n > 0
        invariant
            n <= positions@.len(),
            positions@.len() == coords@.len(),
            located(positions@, coords@, guid@, positions@.len() as int) == located(
                positions@,
                coords@,
                guid@,
                n as int,
            ),
        decreases n,
    {
        if let (Some(lat), Some(lon)) = coords[n - 1] {
            if str_same(positions[n - 1].guid.as_str(), guid) {
                return Some((lat, lon));
            }
        }
        n -= 1;
    }
    None
}

/// What is said of a disaster, given where and when it was.
pub open spec fn disaster_text(
    item: FeedItem,
    coords: Option<(Real, Real)>,
    time: Option<Seq<char>>,
) -> Seq<char> {
    join(
        marked(
            "📍 "@,
            match coords {
                Some((lat, lon)) => Some(lat.text(2) + ", "@ + lon.text(2)),
                None => None,
            },
        ) + marked("🕒 "@, time) + marked("ℹ️ "@, concise(text_of(item.description), 2)),
        "\n"@,
    )
}

/// What is said of a disaster, given where and when it was.
pub fn gdacs_description(
    item: &FeedItem,
    coords: Option<(Real, Real)>,
    time: Option<&str>,
) -> (r: String)
    ensures
        r@ == disaster_text(*item, coords, str_view(time)),
{
    let mut lines: Vec<Vec<char>> = Vec::new();
    assert(lines.deep_view() == Seq::<Seq<char>>::empty());
    let place = match coords {
        Some((lat, lon)) => {
            let mut t = lat.to_text(2);
            append_str(&mut t, ", ");
            append(&mut t, lon.to_text(2).as_slice());
            assert(t@ =~= lat.text(2) + ", "@ + lon.text(2));
            Some(string_of(t.as_slice()))
        },
        None => None,
    };
    push_marked(&mut lines, "📍 ", opt_str(&place));
    push_marked(&mut lines, "🕒 ", time);
    let description = match &item.description {
        Some(d) => d.as_str(),
        None => "",
    };
    proof {
        reveal_strlit("");
        assert(description@ =~= text_of(item.description));
    }
    let details = concise_sentences(description, 2);
    push_marked(&mut lines, "ℹ️ ", opt_str(&details));
    assert(lines.deep_view() =~= marked(
        "📍 "@,
        match coords {
            Some((lat, lon)) => Some(lat.text(2) + ", "@ + lon.text(2)),
            None => None,
        },
    ) + marked("🕒 "@, str_view(time)) + marked("ℹ️ "@, concise(text_of(item.description), 2)));
    string_of(join_of(&lines, "\n").as_slice())
}

/// When a disaster was reported, in seconds since 1970.
pub open spec fn disaster_second(item: FeedItem) -> Option<int> {
    match item.published_at {
        Some(t) => Some(t as int),
        None => None,
    }
}

/// Whether a text is what is said of a disaster, on the clock of some machine.
pub open spec fn is_disaster_text(
    r: Seq<char>,
    item: FeedItem,
    coords: Option<(Real, Real)>,
) -> bool {
    exists|time: Option<Seq<char>>| #[trigger]
        is_moment(time, disaster_second(item)) && r == disaster_text(item, coords, time)
}

/// What is said of a disaster, given where it was.
pub fn format_gdacs_description(item: &FeedItem, coords: Option<(Real, Real)>) -> (r: String)
    ensures
        is_disaster_text(r@, *item, coords),
{
    let stamp = match item.published_at {
        Some(t) => local_stamp(t),
        None => None,
    };
    let time = match &stamp {
        Some(s) => Some(s.long.as_str()),
        None => None,
    };
    let out = gdacs_description(item, coords, time);
    assert(is_stamp(stamp_view(stamp), disaster_second(*item)));
    assert(is_moment(str_view(time), disaster_second(*item)) && out@ == disaster_text(
        *item,
        coords,
        str_view(time),
    ));
    out
}

/// Whether a disaster matters: it is not a green one, and not older than two
/// days.
pub open spec fn disaster_counts(item: FeedItem, now: int) -> bool {
    &&& !starts_with(lowercase(item.title@), "green"@)
    &&& match item.published_at {
        Some(t) => t >= now - MAX_EVENT_AGE,
        None => true,
    }
}

/// Whether a disaster matters.
pub fn is_actionable(item: &FeedItem, now: i64) -> (r: bool)
    requires
        now - MAX_EVENT_AGE >= i64::MIN,
    ensures
        r == disaster_counts(*item, now as int),
{
    let lower = item.title.as_str().to_lowercase();
    if has_prefix(chars_of(lower.as_str()).as_slice(), "green") {
        return false;
    }
    match item.published_at {
        Some(t) => t >= now - MAX_EVENT_AGE,
        None => true,
    }
}

/// The alert for a disaster, given where it was.
pub fn gdacs_alert(item: &FeedItem, coords: Option<(Real, Real)>) -> (r: Alert)
    ensures
        r.key@ == item.guid@,
        r.headline@ == item.title@,
        exists|text: Seq<char>| #[trigger]
            is_disaster_text(text, *item, coords) && r.plain@ == alert_plain(
                "GDACS"@,
                item.title@,
                text,
                item.link.deep_view(),
            ) && r.html@ == alert_html("GDACS"@, item.title@, text, item.link.deep_view()),
{
    let desc = format_gdacs_description(item, coords);
    let (plain, html) = format_alert(
        "GDACS",
        item.title.as_str(),
        desc.as_str(),
        as_str_opt(&item.link),
    );
    assert(is_disaster_text(desc@, *item, coords));
    Alert { key: item.guid.clone(), headline: item.title.clone(), plain, html }
}

// ---------------------------------------------------------------------------
// Laws
// ---------------------------------------------------------------------------

/// What is nearer than something in reach is in reach too; without a limit, or without a place
/// to measure from, everything is, and with both nothing is whose distance is not known.
pub proof fn law_reach_is_a_limit(max: Real, near: Real, far: Real)
    ensures
        near.less(far) && in_reach(Some(max), true, Some(far)) ==> in_reach(
            Some(max),
            true,
            Some(near),
        ),
        max.less(far) ==> !in_reach(Some(max), true, Some(far)),
        !in_reach(Some(max), true, None),
        in_reach(None, true, Some(far)) && in_reach(None, true, None),
        in_reach(Some(max), false, Some(far)) && in_reach(Some(max), false, None),
{
}

/// The earthquakes that count are all that have an id and are not dated before the time, in
/// their order.
pub proof fn law_only_old_quakes_are_left_out(features: Seq<Json>, cutoff_ms: int)
    ensures
        quakes_counted(features, cutoff_ms) == features.filter(
            |f: Json|
                text_in(member(f, "id"@)) is Some && (whole_in(
                    member(member(f, "properties"@), "time"@),
                ) is None || whole_in(member(member(f, "properties"@), "time"@))->0 >= cutoff_ms),
        ),
    decreases features.len(),
{
    reveal(Seq::filter);
    if features.len() > 0 {
        law_only_old_quakes_are_left_out(features.drop_last(), cutoff_ms);
    }
}

/// What is said of an earthquake names its place, its time, how strong it was and its alert
/// level, as far as they are known.
pub proof fn law_quakes_are_described(feature: Json, time: Option<Seq<char>>)
    ensures
        text_in(member(member(feature, "properties"@), "place"@)) matches Some(place) ==> (trimmed(
            place,
        ).len() > 0 ==> occurs(quake_text(feature, time), place)),
        time matches Some(t) ==> occurs(quake_text(feature, time), t),
        real_in(member(member(feature, "properties"@), "mag"@)) matches Some(m) ==> occurs(
            quake_text(feature, time),
            "Magnitude "@ + m.text(1),
        ),
        text_in(member(member(feature, "properties"@), "alert"@)) matches Some(a) ==> (trimmed(
            a,
        ).len() > 0 ==> occurs(quake_text(feature, time), a)),
{
    let props = member(feature, "properties"@);
    let details = quake_details(props);
    let a = marked("📍 "@, spoken(props, "place"@));
    let b = marked("🕒 "@, time);
    let all = join(details, " · "@);
    let c = if details.len() == 0 {
        seq![]
    } else {
        seq!["ℹ️ "@ + all]
    };
    let parts = a + b + c;
    let text = quake_text(feature, time);
    if let Some(t) = spoken(props, "place"@) {
        assert(parts[0] == a[0]);
        lemma_marked(parts, "\n"@, "📍 "@, t, 0);
    }
    if let Some(t) = time {
        assert(parts[a.len() as int] == b[0]);
        lemma_marked(parts, "\n"@, "🕒 "@, t, a.len() as int);
    }
    if details.len() > 0 {
        assert(parts[(a + b).len() as int] == c[0]);
        lemma_marked(parts, "\n"@, "ℹ️ "@, all, (a + b).len() as int);
    }
    let before: int = if real_in(member(props, "mag"@)) is Some {
        1
    } else {
        0
    };
    if let Some(m) = real_in(member(props, "mag"@)) {
        assert(details[0] == "Magnitude "@ + m.text(1));
        law_joined_parts_are_kept(details, " · "@, 0);
        lemma_occurs_within(text, all, details[0]);
    }
    if let Some(t) = spoken(props, "alert"@) {
        assert(details[before] == "USGS alert: "@ + t);
        lemma_marked(details, " · "@, "USGS alert: "@, t, before);
        lemma_occurs_within(text, all, t);
    }
}

/// The event for an earthquake has its id, its headline and its link, and the coordinates in
/// the order in which they are written: the longitude first.
pub proof fn law_quake_events_belong_to_their_quake(e: UsgsEvent, feature: Json)
    requires
        is_quake_event(e, feature),
    ensures
        text_in(member(feature, "id"@)) == Some(e.alert.key@),
        text_in(member(member(feature, "properties"@), "title"@)) matches Some(t)
            ==> e.alert.headline@ == t && occurs(e.alert.plain@, t),
        text_in(member(member(feature, "properties"@), "url"@)) matches Some(u) ==> occurs(
            e.alert.plain@,
            u,
        ),
        ({
            let place = member(member(feature, "geometry"@), "coordinates"@);
            e.lon == real_in(element(place, 0)) && e.lat == real_in(element(place, 1))
        }),
{
    let props = member(feature, "properties"@);
    let title = text_or(props, "title"@, "Earthquake"@);
    let url = text_in(member(props, "url"@));
    let text = choose|text: Seq<char>| #[trigger]
        is_quake_text(text, feature) && {
            &&& e.alert.plain@ == alert_plain("USGS Earthquakes"@, title, text, url)
            &&& e.alert.html@ == alert_html("USGS Earthquakes"@, title, text, url)
        };
    law_plain_alerts_say_it_all("USGS Earthquakes"@, title, text, url);
}

/// The text of an element is what stands between its first start tag and the first end tag
/// behind it, without the white space around it.
pub proof fn law_element_texts_are_found(
    before: Seq<char>,
    tag: Seq<char>,
    text: Seq<char>,
    rest: Seq<char>,
)
    requires
        !before.contains('<'),
        !text.contains('<'),
    ensures
        tag_text(before + ("<"@ + tag + ">"@) + text + ("</"@ + tag + ">"@) + rest, tag) == Some(
            trimmed(text),
        ),
{
    let open = "<"@ + tag + ">"@;
    let close = "</"@ + tag + ">"@;
    let xml = before + open + text + close + rest;
    reveal_strlit("<");
    reveal_strlit("</");
    let n = before.len() as int;
    let m = n + open.len();
    let k = m + text.len();
    lemma_find_from(xml, open, 0);
    assert(xml.subrange(n, n + open.len()) == open);
    assert(occurs_at(xml, open, n));
    if let Some(i) = find(xml, open) {
        if i < n {
            assert(xml.subrange(i, i + open.len())[0] == before[i]);
            assert(before.contains(before[i]));
        }
        assert(i == n);
    }
    lemma_find_from(xml, close, m);
    assert(xml.subrange(k, k + close.len()) == close);
    assert(occurs_at(xml, close, k));
    if let Some(j) = find_from(xml, close, m) {
        if j < k {
            assert(xml.subrange(j, j + close.len())[0] == text[j - m]);
            assert(text.contains(text[j - m]));
        }
        assert(j == k);
        assert(xml.subrange(m, k) == text);
    }
}

proof fn lemma_pieces(s: Seq<char>, sep: Seq<char>, from: int)
    requires
        0 <= from <= s.len(),
        sep.len() > 0,
    ensures
        pieces(s, sep, from).len() > 0,
        join(pieces(s, sep, from), sep) == s.skip(from),
    decreases s.len() - from,
{
    lemma_find_from(s, sep, from);
    if let Some(i) = find_from(s, sep, from) {
        let rest = pieces(s, sep, i + sep.len());
        let all = seq![s.subrange(from, i)] + rest;
        lemma_pieces(s, sep, i + sep.len());
        lemma_join_first(all, sep);
        assert(all.skip(1) == rest);
        assert(s.subrange(i, i + sep.len()) == sep);
        assert(s.skip(from) == s.subrange(from, i) + sep + s.skip(i + sep.len()));
    }
}

/// The pieces between the occurrences of a separator, joined by it, are the text again.
pub proof fn law_separated_pieces_make_the_text(s: Seq<char>, sep: Seq<char>)
    requires
        sep.len() > 0,
    ensures
        join(pieces(s, sep, 0), sep) == s,
{
    lemma_pieces(s, sep, 0);
    assert(s.skip(0) == s);
}

/// Every item of a feed that says what it is called and where it is has its position, and each
/// position is that of such an item.
pub proof fn law_every_position_counts(ps: Seq<Seq<char>>, n: int)
    requires
        0 <= n <= ps.len(),
    ensures
        forall|i: int|
            1 <= i < n && position_of_piece(#[trigger] ps[i]) is Some ==> positions_upto(
                ps,
                n,
            ).contains(position_of_piece(ps[i])->0),
        forall|k: int|
            0 <= k < positions_upto(ps, n).len() ==> exists|i: int|
                1 <= i < n && position_of_piece(#[trigger] ps[i]) == Some(
                    #[trigger] positions_upto(ps, n)[k],
                ),
    decreases n,
{
    if n > 1 {
        let before = positions_upto(ps, n - 1);
        let all = positions_upto(ps, n);
        law_every_position_counts(ps, n - 1);
        assert forall|i: int| 1 <= i < n && position_of_piece(#[trigger] ps[i]) is Some implies
            all.contains(position_of_piece(ps[i])->0) by {
            let p = position_of_piece(ps[i])->0;
            if i < n - 1 {
                let k = choose|k: int| 0 <= k < before.len() && before[k] == p;
                assert(all[k] == p);
            } else {
                assert(all[before.len() as int] == p);
            }
        }
        assert forall|k: int| 0 <= k < all.len() implies exists|i: int|
            1 <= i < n && position_of_piece(#[trigger] ps[i]) == Some(#[trigger] all[k]) by {
            if k < before.len() {
                assert(all[k] == before[k]);
                let i = choose|i: int|
                    1 <= i < n - 1 && position_of_piece(#[trigger] ps[i]) == Some(before[k]);
                assert(position_of_piece(ps[i]) == Some(all[k]));
            } else {
                assert(position_of_piece(ps[n - 1]) == Some(all[k]));
            }
        }
    }
}

/// The coordinates of an event are those of a position with its guid whose coordinates are both
/// numbers, and there are none only if there is no such position.
pub proof fn law_events_are_where_they_say(
    positions: Seq<GdacsPosition>,
    coords: Seq<(Option<Real>, Option<Real>)>,
    guid: Seq<char>,
    n: int,
)
    requires
        0 <= n <= positions.len(),
        coords.len() == positions.len(),
    ensures
        match located(positions, coords, guid, n) {
            Some((lat, lon)) => exists|i: int|
                0 <= i < n && (#[trigger] positions[i]).guid@ == guid && coords[i] == (
                    Some(lat),
                    Some(lon),
                ),
            None => forall|i: int|
                0 <= i < n && (#[trigger] positions[i]).guid@ == guid ==> coords[i].0 is None
                    || coords[i].1 is None,
        },
    decreases n,
{
    if n > 0 {
        law_events_are_where_they_say(positions, coords, guid, n - 1);
        if located(positions, coords, guid, n) != located(positions, coords, guid, n - 1) {
            assert(positions[n - 1].guid@ == guid);
        }
    }
}

/// A disaster counts exactly if its headline does not begin with green, whatever the case, and
/// it is not older than two days.
pub proof fn law_green_disasters_do_not_count(item: FeedItem, now: int)
    ensures
        starts_with(lowercase(item.title@), "green"@) ==> !disaster_counts(item, now),
        item.published_at matches Some(t) ==> (t < now - 2 * 86_400 ==> !disaster_counts(item, now)),
        !starts_with(lowercase(item.title@), "green"@) && (item.published_at is None
            || item.published_at->0 >= now - 2 * 86_400) ==> disaster_counts(item, now),
{
}

/// What is said of a disaster names where and when it was, and what it is about, as far as they
/// are known.
pub proof fn law_disasters_are_described(
    item: FeedItem,
    coords: Option<(Real, Real)>,
    time: Option<Seq<char>>,
)
    ensures
        coords matches Some(c) ==> occurs(
            disaster_text(item, coords, time),
            c.0.text(2) + ", "@ + c.1.text(2),
        ),
        time matches Some(t) ==> occurs(disaster_text(item, coords, time), t),
        item.description matches Some(d) ==> (concise(d@, 2) matches Some(s) ==> occurs(
            disaster_text(item, coords, time),
            s,
        )),
{
    let place = match coords {
        Some((lat, lon)) => Some(lat.text(2) + ", "@ + lon.text(2)),
        None => None,
    };
    let a = marked("📍 "@, place);
    let b = marked("🕒 "@, time);
    let c = marked("ℹ️ "@, concise(text_of(item.description), 2));
    let parts = a + b + c;
    if let Some(t) = place {
        assert(parts[0] == a[0]);
        lemma_marked(parts, "\n"@, "📍 "@, t, 0);
    }
    if let Some(t) = time {
        assert(parts[a.len() as int] == b[0]);
        lemma_marked(parts, "\n"@, "🕒 "@, t, a.len() as int);
    }
    if let Some(t) = concise(text_of(item.description), 2) {
        assert(parts[(a + b).len() as int] == c[0]);
        lemma_marked(parts, "\n"@, "ℹ️ "@, t, (a + b).len() as int);
    }
}

/// The position of an item is read from what stands before the end of the item: its guid, its
/// latitude and its longitude, none where one of them is missing.
pub proof fn law_positions_are_read_from_their_item(item: Seq<char>, rest: Seq<char>)
    requires
        forall|i: int|
            0 <= i < item.len() ==> !#[trigger] occurs_at(
                item + "</item>"@ + rest,
                "</item>"@,
                i,
            ),
    ensures
        position_of_piece(item + "</item>"@ + rest) matches Some(p) ==> tag_text(item, "guid"@)
            == Some(p.0) && tag_text(item, "geo:lat"@) == Some(p.1) && tag_text(item, "geo:long"@)
            == Some(p.2),
        position_of_piece(item + "</item>"@ + rest) is None ==> tag_text(item, "guid"@) is None
            || tag_text(item, "geo:lat"@) is None || tag_text(item, "geo:long"@) is None,
{
    reveal_strlit("</item>");
    let end = "</item>"@;
    let piece = item + end + rest;
    assert(piece.subrange(item.len() as int, (item.len() + end.len()) as int) == end);
    assert(occurs_at(piece, end, item.len() as int));
    lemma_find_from(piece, end, 0);
    assert(find(piece, end) == Some(item.len() as int));
    assert(piece.take(item.len() as int) == item);
}

/// An earthquake of the last two days counts if it has an id, to the millisecond, and so does
/// one whose time is not known.
pub proof fn law_quakes_count_for_two_days(feature: Json, now: int)
    ensures
        text_in(member(feature, "id"@)) is None ==> !quake_counts(feature, quake_cutoff(now)),
        text_in(member(feature, "id"@)) is Some ==> (quake_counts(feature, quake_cutoff(now)) <==> (
        whole_in(member(member(feature, "properties"@), "time"@)) matches Some(ms) ==> now * 1000
            - ms <= 2 * 86_400 * 1000)),
{
}

/// The earthquakes of an answer are its features, all of them.
pub proof fn law_every_feature_is_looked_at(answer: Json)
    ensures
        member(answer, "features"@) matches Json::Array(features) ==> features_in(answer)
            == features@,
        !(member(answer, "features"@) is Array) ==> features_in(answer).len() == 0,
{
}

} // verus!

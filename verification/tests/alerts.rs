use radar_bot::alerts::{
    ags_search_url, alert_action, alert_html_escape, concise_sentences, first_ags, format_alert,
    format_nina_description, format_rfc3339_validity, german_town, nina_alert_key,
    nina_dashboard_url, nina_description, read_nina_answer, AlertAction, AlertEvent, NinaError,
};
use radar_bot::dwd::{
    counts_as_inside, dwd_description, dwd_warning_id, dwd_warnings, format_dwd_description,
    format_dwd_validity, geometry_contains_point, geometry_polygons, jsonp_text, matches_region,
    parse_dwd_jsonp, polygon_contains_point, read_area_answer, ring_contains_point,
    warning_area_url, AreaAnswer, AreaCache, AreaLookup, Edge,
};
use radar_bot::ieee::Real;
use radar_bot::json::{parse_json, Json};

fn json(text: &str) -> Json {
    parse_json(text).expect("a document")
}

fn float(r: Real) -> f64 {
    f64::from_bits(r.bits)
}

/// Whether a ray to the east of a point crosses an edge.
fn crosses(e: &Edge, lat: f64, lon: f64) -> bool {
    let (x1, y1, x2, y2) = (float(e.x1), float(e.y1), float(e.x2), float(e.y2));
    ((y1 > lat) != (y2 > lat)) && (lon < (x2 - x1) * (lat - y1) / (y2 - y1) + x1)
}

fn contains_point(geometry: &Json, lat: f64, lon: f64) -> bool {
    let crossed: Vec<Vec<Vec<bool>>> = geometry_polygons(geometry)
        .iter()
        .map(|polygon| {
            polygon
                .iter()
                .map(|ring| ring.iter().map(|e| crosses(e, lat, lon)).collect())
                .collect()
        })
        .collect();
    geometry_contains_point(&crossed)
}

#[test]
fn dwd_description_is_structured_and_concise() {
    let warning = json(
        r#"{
            "start": 1781946000000,
            "end": 1781974800000,
            "description": "\nAm Samstag wird eine extreme Wärmebelastung erwartet.\nMit einer zusätzlichen Belastung aufgrund verringerter nächtlicher Abkühlung ist insbesondere im dicht bebauten Stadtgebiet von Berlin zu rechnen.\nNoch ein Satz, der nicht in die kurze Nachricht soll.\n",
            "instruction": "Hitzebelastung kann für den menschlichen Körper gefährlich werden. Vermeiden Sie nach Möglichkeit die Hitze, trinken Sie ausreichend Wasser und halten Sie die Innenräume kühl."
        }"#,
    );

    let desc = format_dwd_description("Berlin", &warning);

    assert!(desc.contains("📍 Berlin"));
    assert!(desc.contains("🕒"));
    assert!(desc.contains("ℹ️ Am Samstag wird eine extreme Wärmebelastung erwartet."));
    assert!(desc.contains("✅ Hitzebelastung kann für den menschlichen Körper gefährlich werden."));
    assert!(!desc.contains("Noch ein Satz"));
}

#[test]
fn dwd_polygon_geometry_contains_point() {
    let geometry = json(
        r#"{
            "type": "Polygon",
            "coordinates": [[
                [13.0, 52.0],
                [14.0, 52.0],
                [14.0, 53.0],
                [13.0, 53.0],
                [13.0, 52.0]
            ]]
        }"#,
    );

    assert!(contains_point(&geometry, 52.5, 13.5));
    assert!(!contains_point(&geometry, 51.5, 13.5));
}

#[test]
fn dwd_polygon_hole_excludes_point() {
    let geometry = json(
        r#"{
            "type": "Polygon",
            "coordinates": [
                [
                    [13.0, 52.0],
                    [14.0, 52.0],
                    [14.0, 53.0],
                    [13.0, 53.0],
                    [13.0, 52.0]
                ],
                [
                    [13.4, 52.4],
                    [13.6, 52.4],
                    [13.6, 52.6],
                    [13.4, 52.6],
                    [13.4, 52.4]
                ]
            ]
        }"#,
    );

    assert!(!contains_point(&geometry, 52.5, 13.5));
    assert!(contains_point(&geometry, 52.2, 13.2));
}

#[test]
fn alert_html_preserves_lines_and_adds_link() {
    let (plain, html) = format_alert(
        "DWD Weather Warnings",
        "Amtliche WARNUNG vor HITZE",
        "📍 Berlin\n✅ Drink water",
        Some("https://www.dwd.de/"),
    );

    assert!(plain.contains("🚨 Amtliche WARNUNG vor HITZE"));
    assert!(plain.contains("📍 Berlin\n✅ Drink water\n🔗 https://www.dwd.de/"));
    assert!(html.contains("📍 Berlin<br>✅ Drink water"));
    assert!(html.contains("🔗 <a href=\"https://www.dwd.de/\">https://www.dwd.de/</a>"));
    assert!(!html.contains("DWD level"));
}

#[test]
fn nina_key_changes_when_warning_is_updated() {
    let first = json(
        r#"{
            "sent": "2026-06-20T10:00:00+02:00",
            "effective": "2026-06-20T11:00:00+02:00",
            "expires": "2026-06-20T19:00:00+02:00",
            "severity": "Severe"
        }"#,
    );
    let updated = json(
        r#"{
            "sent": "2026-06-20T12:00:00+02:00",
            "effective": "2026-06-20T11:00:00+02:00",
            "expires": "2026-06-20T20:00:00+02:00",
            "severity": "Severe"
        }"#,
    );

    assert_ne!(
        nina_alert_key("warn-1", &first),
        nina_alert_key("warn-1", &updated)
    );
}

#[test]
fn nina_key_joins_all_parts() {
    let data = json(r#"{"sent": "a", "effective": "b", "severity": "d"}"#);
    assert_eq!(nina_alert_key("w", &data), "nina:w:a:b::d");
}

#[test]
fn times_with_other_colons_can_share_a_key() {
    let a = json(r#"{"sent": "x:"}"#);
    let b = json(r#"{"sent": "x", "effective": ":"}"#);
    assert_eq!(nina_alert_key("w", &a), nina_alert_key("w", &b));
}

#[test]
fn alerts_are_laid_out_in_full() {
    let (plain, html) = format_alert("A & B", "<Event>", "one\n\"two\"", None);
    assert_eq!(plain, "🚨 <Event>\none\n\"two\"\nSource: A & B");
    assert_eq!(
        html,
        "<b>🚨 &lt;Event&gt;</b><br>one<br>&quot;two&quot;<br><em>Source: A &amp; B</em>"
    );
    assert_eq!(alert_html_escape("a<b>&\"c'"), "a&lt;b&gt;&amp;&quot;c'");
}

#[test]
fn sentences_are_cut_and_not_repeated() {
    assert_eq!(
        concise_sentences("One. One.  Two! Three?", 2).as_deref(),
        Some("One. Two!")
    );
    assert_eq!(
        concise_sentences("  no  end\nhere ", 2).as_deref(),
        Some("no end here")
    );
    assert_eq!(concise_sentences(" \n ", 2), None);
    assert_eq!(concise_sentences("A. rest", 2).as_deref(), Some("A."));
}

#[test]
fn nina_answers_give_alerts() {
    let body = r#"[
        {"id": "w1", "payload": {"data": {
            "headline": "Sturm", "msgType": "Alert", "sent": "s",
            "area": [{"areaDesc": "Berlin"}],
            "description": "Es wird windig. Sehr windig. Sonst nichts.",
            "instruction": "Drinnen bleiben"
        }}},
        {"id": "w2", "payload": {"data": {"headline": "Weg", "msgType": "Cancel"}}},
        {"payload": {"data": {"headline": "Ohne id"}}},
        {"id": "w3"}
    ]"#;
    let alerts = read_nina_answer(body).ok().expect("alerts");
    assert_eq!(alerts.len(), 2);
    assert_eq!(alerts[0].key, "nina:w1:s:::");
    assert_eq!(alerts[0].headline, "Sturm");
    assert_eq!(
        alerts[0].plain,
        "🚨 Sturm\n📍 Berlin\nℹ️ Es wird windig. Sehr windig.\n✅ Drinnen bleiben\n🔗 https://warnung.bund.de/meldung/w1\nSource: NINA/warnung.bund.de"
    );
    assert_eq!(alerts[1].headline, "Warnung");
}

#[test]
fn nina_answers_that_are_no_lists_are_refused() {
    assert!(matches!(read_nina_answer("{}"), Err(NinaError::NotArray)));
    assert!(matches!(read_nina_answer("<html>"), Err(NinaError::NotJson)));
}

#[test]
fn nina_descriptions_say_how_long_they_hold() {
    let data = json(r#"{"area": [{"areaDesc": "Mitte"}], "description": "Rauch."}"#);
    assert_eq!(
        nina_description(&data, Some("until tomorrow")),
        "📍 Mitte\n🕒 until tomorrow\nℹ️ Rauch."
    );
    assert_eq!(format_nina_description(&data), "📍 Mitte\nℹ️ Rauch.");
}

#[test]
fn spans_name_the_day_once() {
    let both = format_rfc3339_validity(
        Some("2026-06-20T12:00:00+00:00"),
        Some("2026-06-20T12:30:00+00:00"),
    )
    .expect("a span");
    let parts: Vec<&str> = both.split('-').collect();
    assert_eq!(parts.len(), 2, "{}", both);
    assert_eq!(parts[1].len(), 5, "{}", both);
    let from = format_rfc3339_validity(Some("2026-06-20T12:00:00+00:00"), None).expect("a start");
    assert!(from.starts_with("from "), "{}", from);
    let until = format_rfc3339_validity(None, Some("2026-06-20T12:00:00+00:00")).expect("an end");
    assert!(until.starts_with("until "), "{}", until);
    assert_eq!(from["from ".len()..], until["until ".len()..]);
    assert_eq!(format_rfc3339_validity(Some("soon"), None), None);
    let local = chrono::DateTime::parse_from_rfc3339("2026-06-20T12:00:00+00:00")
        .expect("a time")
        .with_timezone(&chrono::Local);
    assert_eq!(from, format!("from {}", local.format("%a, %d %b %H:%M")));
    let days = format_rfc3339_validity(
        Some("2026-06-20T12:00:00+00:00"),
        Some("2026-06-23T12:00:00+00:00"),
    )
    .expect("a span");
    assert!(days.contains(" - "), "{}", days);
}

#[test]
fn municipalities_are_found_by_name() {
    assert_eq!(
        german_town(r#"{"address": {"country_code": "de", "town": "Werder", "village": "X"}}"#)
            .as_deref(),
        Some("Werder")
    );
    assert_eq!(
        german_town(r#"{"address": {"country_code": "de", "city": "Berlin", "town": "Y"}}"#)
            .as_deref(),
        Some("Berlin")
    );
    assert_eq!(
        german_town(r#"{"address": {"country_code": "at", "city": "Wien"}}"#),
        None
    );
    assert_eq!(german_town(r#"{"address": {"city": "Berlin"}}"#), None);
    assert_eq!(german_town("nothing"), None);
    assert_eq!(
        ags_search_url("Köln Süd"),
        "https://nina.api.bund.de/api31/completion/search?q=K%C3%B6ln+S%C3%BCd"
    );
    assert_eq!(
        first_ags(r#"[{"id": "110000000000"}, {"id": "2"}]"#).as_deref(),
        Some("110000000000")
    );
    assert_eq!(first_ags("[]"), None);
    assert_eq!(
        nina_dashboard_url("110000000000"),
        "https://nina.api.bund.de/api31/dashboard/110000000000"
    );
}

#[test]
fn wrapped_documents_are_unwrapped() {
    assert_eq!(jsonp_text(" warnWetter.loadWarnings({\"a\":1}); \n"), "{\"a\":1}");
    assert_eq!(jsonp_text("warnWetter.loadWarnings([1]))"), "[1]");
    assert_eq!(jsonp_text(" [2] "), "[2]");
    assert!(parse_dwd_jsonp("warnWetter.loadWarnings({});").is_some());
    assert!(parse_dwd_jsonp("warnWetter.loadWarnings(").is_none());
}

#[test]
fn regions_match_whatever_the_case() {
    let keywords = vec!["  ".to_owned(), " BERLIN ".to_owned()];
    assert!(matches_region("Stadt berlin Mitte", &keywords));
    assert!(!matches_region("Potsdam", &keywords));
    assert!(!matches_region("Berlin", &[]));
}

#[test]
fn dwd_warnings_hold_now_and_here() {
    let answer = json(
        r#"{
            "warnings": {"111000000": [
                {"regionName": "Berlin", "start": 1000, "end": 3000, "headline": "Amtliche WARNUNG", "level": 2, "description": "Heiss."},
                {"regionName": "Berlin", "start": 2001, "end": 3000, "headline": "Später"},
                {"regionName": "Berlin", "start": 1000, "end": 1999, "headline": "Vorbei"},
                {"regionName": "Potsdam", "start": 1000, "end": 3000}
            ], "2": 7},
            "vorabInformation": {"111000000": [{"regionName": "Berlin"}]}
        }"#,
    );
    let found = dwd_warnings(&answer, &["berlin".to_owned()], 2000);
    assert_eq!(found.len(), 2);
    assert_eq!(found[0].cell, "111000000");
    assert_eq!(found[0].alert.headline, "Amtliche WARNUNG");
    assert!(found[0].alert.plain.contains("📍 Berlin"));
    assert!(found[0].alert.plain.contains("ℹ️ Heiss."));
    assert_eq!(found[1].alert.headline, "Wetterwarnung");
}

#[test]
fn dwd_warnings_are_told_apart() {
    let a = json(r#"{"start": 1, "end": 2, "event": "HITZE", "level": 2}"#);
    let b = json(r#"{"start": 1, "end": 3, "event": "HITZE", "level": 2}"#);
    let one = dwd_warning_id("warnings", "Berlin", &a);
    assert_ne!(one, dwd_warning_id("warnings", "Berlin", &b));
    assert_ne!(one, dwd_warning_id("vorabInformation", "Berlin", &a));
    assert_eq!(one, dwd_warning_id("warnings", "Berlin", &a));
    assert_eq!(dwd_description("Berlin", &a, None), "📍 Berlin");
    assert_eq!(format_dwd_validity(&json("{}")), None);
}

#[test]
fn areas_are_looked_for_layer_by_layer() {
    let first = warning_area_url(0, "1 1").expect("a layer");
    assert!(first.starts_with("https://maps.dwd.de/geoserver/dwd/ows?service=WFS"));
    assert!(first.ends_with("&CQL_FILTER=WARNCELLID%3D1+1"));
    assert!(warning_area_url(4, "1").is_some());
    assert!(warning_area_url(5, "1").is_none());
}

#[test]
fn area_answers_are_told_apart() {
    let found = read_area_answer(
        r#"{"features": [{"geometry": {"type": "MultiPolygon", "coordinates": [[[[0,0],[1,0],[1,1]]]]}}]}"#,
    );
    match found {
        AreaAnswer::Found(polygons) => {
            assert_eq!(polygons.len(), 1);
            assert_eq!(polygons[0].len(), 1);
            assert_eq!(polygons[0][0].len(), 3);
        }
        _ => panic!("no area"),
    }
    assert!(matches!(
        read_area_answer(r#"{"features": []}"#),
        AreaAnswer::NotFound
    ));
    assert!(matches!(read_area_answer("<xml>"), AreaAnswer::NotJson));
    assert!(counts_as_inside(AreaLookup::Known(true)));
    assert!(!counts_as_inside(AreaLookup::Known(false)));
    assert!(counts_as_inside(AreaLookup::Missing));
    assert!(counts_as_inside(AreaLookup::Failed));
}

#[test]
fn rings_count_crossings() {
    assert!(ring_contains_point(&[true, false, false]));
    assert!(!ring_contains_point(&[true, true, false]));
    assert!(!polygon_contains_point(&[]));
    assert!(polygon_contains_point(&[
        vec![true, false, false],
        vec![true, true, false]
    ]));
    assert!(!polygon_contains_point(&[
        vec![true, false, false],
        vec![true, false, false]
    ]));
    assert!(!geometry_contains_point(&[]));
    assert!(!contains_point(&json(r#"{"type": "Point", "coordinates": [1, 2]}"#), 2.0, 1.0));
}

#[test]
fn cells_are_looked_up_once() {
    let mut cache = AreaCache::new();
    assert_eq!(cache.get("1"), None);
    assert!(cache.remember("1", AreaLookup::Failed));
    assert!(!cache.remember("2", AreaLookup::Known(false)));
    assert_eq!(cache.get("1"), Some(true));
    assert_eq!(cache.get("2"), Some(false));
    assert_eq!(cache.get("3"), None);
    assert!(cache.remember("2", AreaLookup::Known(true)));
    assert_eq!(cache.get("2"), Some(true));
}

#[test]
fn alerts_are_posted_until_they_arrive() {
    let mut sent: Vec<&str> = Vec::new();
    let mut posts = 0;
    for delivered in [false, true, true] {
        let found = AlertEvent::Found { seen: sent.contains(&"k") };
        if alert_action(found) == AlertAction::Post {
            posts += 1;
            match alert_action(AlertEvent::Posted { delivered }) {
                AlertAction::Mark => sent.push("k"),
                action => assert!(action == AlertAction::Leave && !delivered),
            }
        } else {
            assert!(alert_action(found) == AlertAction::Skip);
        }
    }
    assert_eq!(posts, 2);
    assert_eq!(sent, vec!["k"]);
}

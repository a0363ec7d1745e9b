use radar_bot::article::ArticleFetch;
use radar_bot::config::{
    derive_warning_region_keywords, AreaGroup, EmergencyConfig, FilterConfig, PlaceConfig,
    ScheduleConfig, SourceConfig, WeatherConfig,
};
use radar_bot::filter::{find_configured_place_distance, keyword_check};
use radar_bot::geocode::{
    first_hit, geocode_url, lookup_step, names_to_look_up, nearest_street, read_geocode_answer,
    rows_in_city, DistanceLookup, GeocodeAnswer, LookupAction, LookupEvent, StreetSearch,
};
use radar_bot::ieee::Real;
use radar_bot::item::FeedItem;
use radar_bot::json::{parse_json, Json};
use radar_bot::pipeline::{
    apply_article, decide, judge, keyword_stage, needs_article, process_item, rejected,
    KeywordDecision, ProcessOutcome,
};
use radar_bot::sources::SourceType;
use radar_bot::stats::{fate_of, source_stats, stats_reply, Fate, SourcePollStat};
use radar_bot::streets::{
    extract_street_candidates, extract_street_evidence, short_location_label, street_confidence,
    StreetEvidence,
};

fn float(x: f64) -> Real {
    Real { bits: x.to_bits() }
}

fn value(r: Real) -> f64 {
    f64::from_bits(r.bits)
}

fn owned(v: &[&str]) -> Vec<String> {
    v.iter().map(|s| s.to_string()).collect()
}

fn feed_item(title: &str) -> FeedItem {
    FeedItem {
        guid: "g".to_owned(),
        title: title.to_owned(),
        link: Some("https://a.test/1".to_owned()),
        link_note: None,
        description: None,
        article_text: None,
        source_name: "Test".to_owned(),
        score: 0,
        max_score: 0,
        distance_meters: None,
        location_label: None,
        published_at: None,
    }
}

fn source(filter: bool, base: Option<f64>) -> SourceConfig {
    SourceConfig {
        name: "Test".to_owned(),
        source_type: SourceType::Rss,
        url: None,
        query: None,
        limit: None,
        max_age_hours: None,
        filter,
        base_implied_meters: base.map(float),
        required: None,
    }
}

#[test]
fn configured_place_distance_matches_alias() {
    let filter = FilterConfig {
        places: vec![PlaceConfig {
            name: "RAW-Gelände".to_owned(),
            lat: float(52.5070),
            lon: float(13.4540),
            aliases: vec!["RAW Gelände".to_owned(), "RAW".to_owned()],
        }],
        ..Default::default()
    };
    let item = FeedItem {
        guid: "place".to_owned(),
        title: "Feuerwehreinsatz am RAW".to_owned(),
        link: None,
        link_note: None,
        description: None,
        article_text: None,
        source_name: "Test".to_owned(),
        score: 0,
        max_score: 0,
        distance_meters: None,
        location_label: None,
        published_at: None,
    };

    // The reference point (52.5070, 13.4540) is the place itself.
    let hit = find_configured_place_distance(&item, &filter, Some(&[float(0.0)]));

    assert_eq!(hit.map(|(_, label)| label), Some("RAW-Gelände".to_owned()));
    assert!(find_configured_place_distance(&item, &filter, None).is_none());
}

#[test]
fn the_nearest_place_counts() {
    let place = |name: &str| PlaceConfig {
        name: name.to_owned(),
        lat: float(0.0),
        lon: float(0.0),
        aliases: Vec::new(),
    };
    let filter = FilterConfig {
        places: vec![place("Ostkreuz"), place("Frankfurter Tor"), place("Zoo")],
        ..Default::default()
    };
    let item = feed_item("Störung zwischen Ostkreuz und Frankfurter Tor");
    let (distance, label) =
        find_configured_place_distance(&item, &filter, Some(&[float(900.0), float(400.0), float(1.0)]))
            .expect("a place");
    assert_eq!(value(distance), 400.0);
    assert_eq!(label, "Frankfurter Tor");
}

#[test]
fn keywords_let_items_through_or_not() {
    let filter = FilterConfig {
        blocklist: owned(&["Fußball"]),
        area: vec![
            AreaGroup { implied_meters: float(1500.5), terms: owned(&["Friedrichshain"]) },
            AreaGroup { implied_meters: float(300.0), terms: owned(&["Kiez", "Rigaer Straße"]) },
        ],
        ..Default::default()
    };
    assert!(keyword_check(&feed_item("FUSSBALL im Kiez"), &filter, &[]).is_none());
    assert!(keyword_check(&feed_item("Kiez"), &filter, &owned(&["Berlin"])).is_none());
    let (place, matched) =
        keyword_check(&feed_item("Rigaer Str. in Friedrichshain, Berlin"), &filter, &owned(&["berlin"]))
            .expect("let through");
    let (meters, term) = place.expect("a place");
    assert_eq!(value(meters), 300.0);
    assert_eq!(term, "Rigaer Straße");
    assert_eq!(matched, vec!["\"Friedrichshain\" (1500m)", "\"Rigaer Straße\" (300m)"]);
    let (none, empty) = keyword_check(&feed_item("Anderswo"), &filter, &[]).expect("let through");
    assert!(none.is_none() && empty.is_empty());
}

#[test]
fn streets_are_found_in_texts() {
    assert_eq!(
        extract_street_candidates("Brand in der Rigaer Straße 94, nahe Petersburger Str. und am Platz."),
        vec!["Rigaer Straße 94"]
    );
    assert_eq!(
        extract_street_candidates("Die Straße des Weges Boxhagener Platz, Boxhagener Platz."),
        vec!["Weges Boxhagener Platz", "Platz Boxhagener Platz"]
    );
    assert!(extract_street_candidates("Auf dem Platz").is_empty());
    assert!(extract_street_candidates("").is_empty());
}

#[test]
fn evidence_is_weighed() {
    assert_eq!(street_confidence("title", "Brand"), 6);
    assert_eq!(street_confidence("title", "Fest"), 4);
    assert_eq!(street_confidence("description", "Fest"), 3);
    assert_eq!(street_confidence("article", "Messerangriff"), 4);
    let evidence = extract_street_evidence(
        "Fest in der Rigaer Straße",
        Some("Feuer nahe Rigaer STRASSE und Warschauer Straße"),
        None,
    );
    let found: Vec<(&str, i32)> = evidence
        .iter()
        .map(|e| (e.candidate.as_str(), e.confidence))
        .collect();
    assert_eq!(
        found,
        vec![
            ("Rigaer Straße", 4),
            ("Rigaer STRASSE", 5),
            ("Warschauer Straße", 5)
        ]
    );
    assert_eq!(
        short_location_label("Rigaer Straße, , Friedrichshain, Berlin, Deutschland").as_deref(),
        Some("Rigaer Straße, Friedrichshain, Berlin")
    );
    assert_eq!(short_location_label(" , "), None);
}

#[test]
fn places_are_asked_for_in_the_city() {
    assert_eq!(
        geocode_url("Rigaer Straße", "Berlin, Germany"),
        "https://nominatim.openstreetmap.org/search?q=Rigaer+Stra%C3%9Fe%2C+Berlin%2C+Germany&format=json&addressdetails=1&limit=5"
    );
    assert_eq!(
        geocode_url("x", ""),
        "https://nominatim.openstreetmap.org/search?q=x&format=json&addressdetails=1&limit=5"
    );
}

const ANSWER: &str = r#"[
    {"lat": "1", "lon": "2", "display_name": "Rigaer Straße, Hamburg", "address": {"city": "Hamburg"}},
    {"lat": "bad", "lon": "2", "display_name": "Rigaer Straße", "address": {"city": "Berlin"}},
    {"lat": 3, "lon": "4", "display_name": "Rigaer Straße, Berlin"},
    {"lat": "52.5", "lon": "13.4", "display_name": "Rigaer Straße, Berlin"},
    {"lat": "5", "lon": "6", "address": {"state": "BERLIN"}}
]"#;

#[test]
fn answers_are_read_for_the_city() {
    let rows = read_geocode_answer(ANSWER, "Berlin, Germany").expect("rows");
    let lats: Vec<&str> = rows.iter().map(|r| r.lat.as_str()).collect();
    assert_eq!(lats, vec!["bad", "52.5", "5"]);
    assert_eq!(rows[1].lon, "13.4");
    assert_eq!(rows[1].display_name.as_deref(), Some("Rigaer Straße, Berlin"));
    assert_eq!(rows[2].display_name, None);
    let all = read_geocode_answer(ANSWER, " , x").expect("rows");
    assert_eq!(all.len(), 4);
    assert!(read_geocode_answer("{}", "").expect("rows").is_empty());
    assert!(read_geocode_answer("[", "").is_none());
    let coords: Vec<(Option<Real>, Option<Real>)> = rows
        .iter()
        .map(|r| (r.lat.parse().ok().map(float), r.lon.parse().ok().map(float)))
        .collect();
    let hit = first_hit(&rows, &coords).expect("a hit");
    assert_eq!(value(hit.lat), 52.5);
    assert_eq!(value(hit.lon), 13.4);
    assert!(first_hit(&[], &[]).is_none());
}

#[test]
fn addresses_are_given_as_texts() {
    let results = match parse_json(r#"[{"lat": "1", "lon": "2"}, {"lat": "3", "lon": "4"}]"#) {
        Some(Json::Array(items)) => items,
        _ => panic!("no list"),
    };
    let rows = rows_in_city(&results, &owned(&["in Berlin", "in Bonn"]), "Bonn");
    assert_eq!(rows.len(), 1);
    assert_eq!(rows[0].lat, "3");
}

fn street(candidate: &str, confidence: i32) -> StreetEvidence {
    StreetEvidence {
        candidate: candidate.to_owned(),
        confidence,
    }
}

fn hit(distance: f64, name: Option<&str>) -> GeocodeAnswer {
    GeocodeAnswer::Hit {
        distance: float(distance),
        display_name: name.map(str::to_owned),
    }
}

#[test]
fn the_nearest_street_is_found() {
    let evidence = [street("A", 4), street("B", 6), street("C", 6), street("D", 6)];
    let found = nearest_street(
        &evidence,
        vec![
            hit(700.0, None),
            hit(900.0, Some("B-Straße, Berlin")),
            hit(500.0, None),
            hit(20000.0, None),
        ],
    );
    match found {
        DistanceLookup::Found(d, label) => {
            assert_eq!(value(d), 500.0);
            assert_eq!(label, "C");
        }
        _ => panic!("nothing found"),
    }
    let unequal = [street("Rigaer Straße", 6), street("Marktstraße", 4)];
    match nearest_street(&unequal, vec![hit(5000.0, None), hit(200.0, None)]) {
        DistanceLookup::Found(d, label) => {
            assert_eq!(value(d), 200.0);
            assert_eq!(label, "Marktstraße");
        }
        _ => panic!("nothing found"),
    }
    assert!(matches!(
        nearest_street(&evidence[..1], vec![GeocodeAnswer::Failure]),
        DistanceLookup::TransientFailure
    ));
    assert!(matches!(
        nearest_street(&evidence[..1], vec![GeocodeAnswer::Miss]),
        DistanceLookup::NoMatch
    ));
    let search = StreetSearch::new().step(&evidence[0], GeocodeAnswer::Failure);
    let search = search.step(&evidence[1], hit(1.0, Some("X, Y, Z, W")));
    match search.finish() {
        DistanceLookup::Found(_, label) => assert_eq!(label, "X, Y, Z"),
        _ => panic!("nothing found"),
    }
}

#[test]
fn only_answers_are_cached() {
    let mut cached: Vec<&str> = Vec::new();
    let mut asked = 0;
    for answers in [false, true, true] {
        let event = if cached.contains(&"A") { LookupEvent::Known } else { LookupEvent::Unknown };
        if lookup_step(event) == LookupAction::Ask {
            asked += 1;
            let event = if answers { LookupEvent::Answered } else { LookupEvent::Failed };
            match lookup_step(event) {
                LookupAction::Store => cached.push("A"),
                action => assert!(action == LookupAction::Fail && !answers),
            }
        } else {
            assert!(lookup_step(event) == LookupAction::Use);
        }
    }
    assert_eq!(asked, 2);
    assert_eq!(cached, vec!["A"]);
}

#[test]
fn few_and_sure_streets_are_looked_up() {
    let mut evidence: Vec<StreetEvidence> = (0..70).map(|i| street(&i.to_string(), 3)).collect();
    evidence[0].confidence = 2;
    let names = names_to_look_up(evidence);
    assert_eq!(names.len(), 59);
    assert_eq!(names[0].candidate, "1");
}

#[test]
fn articles_are_fetched_where_needed() {
    assert!(needs_article(&source(true, None), &feed_item("T")));
    assert!(needs_article(&source(false, Some(1.0)), &feed_item("T")));
    assert!(!needs_article(&source(false, None), &feed_item("T")));
    let mut full = feed_item("T");
    full.article_text = Some("text".to_owned());
    assert!(!needs_article(&source(true, None), &full));
    let item = apply_article(
        feed_item("T"),
        ArticleFetch {
            text: "body".to_owned(),
            resolved_link: Some("https://b.test".to_owned()),
            link_note: Some("note".to_owned()),
        },
    );
    assert_eq!(item.article_text.as_deref(), Some("body"));
    assert_eq!(item.link.as_deref(), Some("https://b.test"));
    assert_eq!(item.link_note.as_deref(), Some("note"));
}

fn strict() -> FilterConfig {
    FilterConfig {
        digest_threshold: 3,
        candidate_min_score: 1,
        ..Default::default()
    }
}

#[test]
fn thresholds_decide() {
    let s = source(true, None);
    let place = |m: f64| Some((float(m), "P".to_owned()));
    match judge(&s, feed_item("T"), &strict(), false, place(700.0)) {
        ProcessOutcome::Queued(item) => {
            assert_eq!(item.score, 3);
            assert_eq!(item.max_score, 5);
            assert_eq!(item.location_label.as_deref(), Some("P"));
        }
        _ => panic!("not queued"),
    }
    match judge(&s, feed_item("T"), &strict(), false, place(1500.0)) {
        ProcessOutcome::Candidate { item, reason } => {
            assert_eq!(item.score, 2);
            assert_eq!(reason, "score 2 below digest threshold 3");
        }
        _ => panic!("no candidate"),
    }
    match judge(&s, feed_item("T"), &strict(), false, None) {
        ProcessOutcome::Dropped { reason, .. } => {
            assert_eq!(reason, "score 0 below digest threshold 3")
        }
        _ => panic!("not dropped"),
    }
    let open = FilterConfig {
        candidate_min_score: 0,
        ..strict()
    };
    match judge(&s, feed_item("T"), &open, false, None) {
        ProcessOutcome::Candidate { item, reason } => {
            assert_eq!(item.score, 0);
            assert_eq!(reason, "score 0 below digest threshold 3");
        }
        _ => panic!("no candidate"),
    }
    match judge(&s, feed_item("T"), &strict(), true, None) {
        ProcessOutcome::Retry { reason, .. } => assert_eq!(
            reason,
            "article fetch failed and score 0 below digest threshold 3"
        ),
        _ => panic!("no retry"),
    }
    assert!(matches!(
        judge(&source(false, None), feed_item("T"), &strict(), false, None),
        ProcessOutcome::Queued(_)
    ));
}

#[test]
fn the_nearest_evidence_wins() {
    let s = source(true, Some(5000.0));
    let outcome = decide(
        &s,
        feed_item("T"),
        &strict(),
        false,
        Some((float(900.0), "implied".to_owned())),
        None,
        Some(DistanceLookup::Found(float(150.0), "street".to_owned())),
        Some(&[]),
    );
    match outcome {
        ProcessOutcome::Queued(item) => {
            assert_eq!(item.score, 5);
            assert_eq!(item.location_label.as_deref(), Some("street"));
            assert_eq!(item.distance_meters.map(value), Some(150.0));
        }
        _ => panic!("not queued"),
    }
    match decide(
        &s,
        feed_item("T"),
        &strict(),
        false,
        None,
        None,
        Some(DistanceLookup::TransientFailure),
        None,
    ) {
        ProcessOutcome::Retry { reason, .. } => assert_eq!(
            reason,
            "geocode transient failure before distance decision"
        ),
        _ => panic!("no retry"),
    }
}

#[test]
fn sources_are_a_last_resort() {
    let located = |area: Option<f64>, street: Option<f64>| {
        let lookup = match street {
            Some(m) => DistanceLookup::Found(float(m), "street".to_owned()),
            None => DistanceLookup::NoMatch,
        };
        let outcome = decide(
            &source(false, Some(300.0)),
            feed_item("T"),
            &strict(),
            false,
            area.map(|m| (float(m), "area".to_owned())),
            Some((float(300.0), "source".to_owned())),
            Some(lookup),
            None,
        );
        match outcome {
            ProcessOutcome::Queued(item) => item.location_label.expect("a place"),
            _ => panic!("not queued"),
        }
    };
    assert_eq!(located(None, None), "source");
    assert_eq!(located(None, Some(5000.0)), "street");
    assert_eq!(located(Some(4000.0), None), "area");
    assert_eq!(located(Some(4000.0), Some(5000.0)), "area");
    assert_eq!(located(Some(4000.0), Some(150.0)), "street");
}

#[test]
fn rejected_items_are_dropped_or_tried_again() {
    match rejected(feed_item("T"), false) {
        ProcessOutcome::Dropped { reason, .. } => {
            assert_eq!(reason, "required/blocklist keyword filter did not pass")
        }
        _ => panic!("not dropped"),
    }
    match rejected(feed_item("T"), true) {
        ProcessOutcome::Retry { reason, .. } => {
            assert_eq!(reason, "article fetch failed before keyword decision")
        }
        _ => panic!("no retry"),
    }
    let filter = FilterConfig {
        required: owned(&["berlin"]),
        ..strict()
    };
    assert!(matches!(
        process_item(&source(true, None), feed_item("T"), &filter, "", false, None, None),
        ProcessOutcome::Dropped { .. }
    ));
    let blocking = FilterConfig {
        blocklist: owned(&["fußball"]),
        ..Default::default()
    };
    let match_report = || feed_item("Fussball im Kiez");
    assert!(matches!(
        process_item(&source(true, Some(1.0)), match_report(), &blocking, "", false, None, None),
        ProcessOutcome::Dropped { .. }
    ));
    assert!(matches!(
        process_item(&source(true, Some(1.0)), match_report(), &blocking, "", true, None, None),
        ProcessOutcome::Dropped { .. }
    ));
    assert!(matches!(
        process_item(&source(true, None), feed_item("T"), &filter, "", true, None, None),
        ProcessOutcome::Retry { .. }
    ));
    assert!(matches!(
        process_item(&source(false, None), match_report(), &blocking, "", false, None, None),
        ProcessOutcome::Queued(_)
    ));
}

#[test]
fn sources_imply_places() {
    let named = |decision: KeywordDecision| match decision {
        KeywordDecision::At { area: None, base: Some((_, label)) } => label,
        _ => panic!("no place"),
    };
    let filter = strict();
    assert_eq!(
        named(keyword_stage(&source(true, Some(9.0)), &feed_item("T"), &filter, " Berlin , Germany")),
        "Berlin"
    );
    assert_eq!(
        named(keyword_stage(&source(true, Some(9.0)), &feed_item("T"), &filter, "")),
        "Test"
    );
    assert_eq!(
        named(keyword_stage(&source(false, Some(9.0)), &feed_item("T"), &filter, "Berlin")),
        "Test"
    );
    let mut own = source(true, None);
    own.required = Some(owned(&["hamburg"]));
    assert!(matches!(
        keyword_stage(&own, &feed_item("Berlin"), &filter, ""),
        KeywordDecision::Missing
    ));
    let blocking = FilterConfig {
        blocklist: owned(&["berlin"]),
        ..strict()
    };
    assert!(matches!(
        keyword_stage(&own, &feed_item("Berlin"), &blocking, ""),
        KeywordDecision::Blocked
    ));
}

#[test]
fn polls_are_counted() {
    let retry = ProcessOutcome::Retry {
        item: feed_item("T"),
        reason: "r".to_owned(),
    };
    assert!(fate_of(&retry) == Fate::Retry);
    let sources = [source(true, None)];
    let fates = [Fate::Queued, Fate::Queued, Fate::Candidate, Fate::Dropped, Fate::Retry];
    let outcomes: Vec<(String, Fate)> = fates.iter().map(|f| ("Test".to_owned(), *f)).collect();
    let stats = source_stats(&sources, &[("Test".to_owned(), 9), ("Other".to_owned(), 3)], &outcomes);
    assert_eq!(stats.len(), 1);
    let s = &stats[0];
    assert_eq!(
        (s.total, s.queued, s.candidate, s.dropped, s.retry_later),
        (9, 2, 1, 1, 1)
    );
    assert_eq!(
        stats_reply(24, &stats),
        "Source stats, last 24h:\nTest: 9 total, 2 queued, 1 candidate, 1 dropped, 1 retry"
    );
    let none: Vec<SourcePollStat> = Vec::new();
    assert_eq!(stats_reply(2, &none), "No source stats recorded in the last 2h.");
}

#[test]
fn warnings_are_looked_for_in_the_city() {
    let mut filter = FilterConfig::default();
    let mut weather = WeatherConfig::default();
    assert!(derive_warning_region_keywords(&filter, &weather).is_empty());
    filter.reference_address = Some("Rigaer Straße 1, 10247 Berlin Mitte".to_owned());
    assert_eq!(derive_warning_region_keywords(&filter, &weather), vec!["Berlin"]);
    filter.geocode_city = Some(" , Germany".to_owned());
    assert_eq!(derive_warning_region_keywords(&filter, &weather), vec!["Berlin"]);
    filter.geocode_city = Some("Potsdam, Germany".to_owned());
    assert_eq!(derive_warning_region_keywords(&filter, &weather), vec!["Potsdam"]);
    weather.warning_region_keywords = owned(&["A", "B"]);
    assert_eq!(derive_warning_region_keywords(&filter, &weather), vec!["A", "B"]);
}

#[test]
fn settings_have_defaults() {
    let emergency = EmergencyConfig::default();
    assert!(emergency.enabled);
    assert_eq!(emergency.max_distance_km.map(value), Some(500.0));
    assert_eq!(emergency.poll_interval_secs, 120);
    let schedule = ScheduleConfig::default();
    assert_eq!(schedule.poll_interval_minutes, 30);
    assert_eq!(schedule.digest_times, vec!["08:00"]);
    let filter = FilterConfig::default();
    assert_eq!(filter.digest_threshold, 0);
    assert!(WeatherConfig::default().alerts_enabled);
}

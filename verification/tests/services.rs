use radar_bot::commands::{
    accepts_invite, after_join, delay_after, parse_command, react, servers_of, Command, JoinAction,
    JoinResult, Reaction,
};
use radar_bot::config::{ScheduleConfig, SourceConfig};
use radar_bot::disasters::{
    gdacs_alert, gdacs_coords, gdacs_description, gdacs_positions, is_actionable, is_in_reach,
    read_usgs_answer, usgs_description, xml_tag,
};
use radar_bot::ieee::Real;
use radar_bot::item::FeedItem;
use radar_bot::json::{parse_json, Json};
use radar_bot::schedule::{
    digest_targets, forecast_time, parse_time, seconds_until, seconds_until_digest, TimeOfDay,
};
use radar_bot::sources::{
    build_adapter, read_session, session_request_body, token_step, BlueskyAdapter, BlueskyContext,
    BlueskySession, RssAdapter, SourceAdapter, SourceType, TokenAction, TokenEvent,
};
use radar_bot::weather::{
    brightsky_icon, brightsky_url, format_message, openmeteo_url, period_label,
    read_brightsky_answer, read_openmeteo_answer, utc_hour, wmo_icon,
};

fn float(x: f64) -> Real {
    Real { bits: x.to_bits() }
}

fn json(text: &str) -> Json {
    parse_json(text).expect("a document")
}

fn owned(v: &[&str]) -> Vec<String> {
    v.iter().map(|s| s.to_string()).collect()
}

fn feed_item(title: &str, published_at: Option<i64>) -> FeedItem {
    FeedItem {
        guid: "g".to_owned(),
        title: title.to_owned(),
        link: Some("https://a.test/1".to_owned()),
        link_note: None,
        description: Some("First. Second. Third.".to_owned()),
        article_text: None,
        source_name: "Test".to_owned(),
        score: 0,
        max_score: 0,
        distance_meters: None,
        location_label: None,
        published_at,
    }
}

// ── Commands ────────────────────────────────────────────────────────────────

#[test]
fn commands_are_recognised() {
    assert!(matches!(parse_command(" !reset-trust  @a:b "), Command::ResetTrust(t) if t == "@a:b"));
    assert!(matches!(parse_command("!source-stats"), Command::SourceStats(24)));
    assert!(matches!(parse_command("!source-stats 0"), Command::SourceStats(1)));
    assert!(matches!(parse_command("!source-stats 48 x"), Command::SourceStats(48)));
    assert!(matches!(parse_command("!source-stats 9999"), Command::SourceStats(720)));
    assert!(matches!(parse_command("!source-stats many"), Command::SourceStats(24)));
    assert!(matches!(parse_command("!reset-trust"), Command::Other));
    assert!(matches!(parse_command("hello"), Command::Other));
}

#[test]
fn only_administrators_give_commands() {
    let admins = owned(&["@a:x.test"]);
    assert!(matches!(react("!reset-trust @c:d", "@a:x.test", &admins), Reaction::ResetTrust(t) if t == "@c:d"));
    assert!(matches!(react("!source-stats 3", "@a:x.test", &admins), Reaction::SourceStats(3)));
    assert!(matches!(react("!source-stats 3", "@b:x.test", &admins), Reaction::Refuse));
    assert!(matches!(react("!reset-trust @c:d", "@a:x.test", &[]), Reaction::Refuse));
    assert!(matches!(react("hello", "@b:x.test", &admins), Reaction::Ignore));
}

#[test]
fn invitations_are_followed() {
    assert!(accepts_invite(&[], "@a:x"));
    assert!(accepts_invite(&owned(&["@b:x", "@a:x"]), "@a:x"));
    assert!(!accepts_invite(&owned(&["@b:x"]), "@a:x"));
    assert_eq!(servers_of("x", None), vec!["x"]);
    assert_eq!(servers_of("x", Some("x")), vec!["x"]);
    assert_eq!(servers_of("x", Some("y")), vec!["x", "y"]);
}

#[test]
fn joins_are_tried_again_with_growing_delays() {
    let delays: Vec<u64> = (1..=8).map(delay_after).collect();
    assert_eq!(delays, vec![2, 4, 8, 16, 32, 64, 128, 256]);
    assert!(after_join(1, JoinResult::Failed) == JoinAction::RetryAfter(2));
    assert!(after_join(8, JoinResult::Failed) == JoinAction::Stop);
    assert!(after_join(1, JoinResult::Joined) == JoinAction::Stop);
    assert!(after_join(1, JoinResult::Terminal) == JoinAction::Stop);
}

// ── Schedule ────────────────────────────────────────────────────────────────

#[test]
fn times_of_day_are_read() {
    let t = parse_time("08:30").expect("a time");
    assert_eq!((t.hour, t.minute), (8, 30));
    for s in ["24:00", "8", "8:60", "a:b", "08:30:00", " 8:00"] {
        assert!(parse_time(s).is_none(), "{}", s);
    }
    let targets = digest_targets(&owned(&["8:0", "x", "+18:05"]));
    assert_eq!(targets.len(), 2);
    assert_eq!((targets[1].hour, targets[1].minute), (18, 5));
}

#[test]
fn waits_end_at_a_target() {
    let eight = TimeOfDay { hour: 8, minute: 0 };
    let six = TimeOfDay { hour: 18, minute: 0 };
    assert_eq!(seconds_until(7 * 3600, 0, eight), 3600);
    assert_eq!(seconds_until(8 * 3600, 0, eight), 86_400);
    assert_eq!(seconds_until(7 * 3600, 1, eight), 3599);
    assert_eq!(seconds_until_digest(9 * 3600, 0, &[eight, six]), 9 * 3600);
    assert_eq!(seconds_until_digest(19 * 3600, 0, &[eight, six]), 13 * 3600);
}

#[test]
fn forecasts_have_a_time() {
    let schedule = |times: &[&str]| ScheduleConfig {
        poll_interval_minutes: 30,
        digest_times: owned(times),
    };
    let at = |t: TimeOfDay| (t.hour, t.minute);
    assert_eq!(at(forecast_time(&Some("06:45".to_owned()), &schedule(&["07:00"]))), (6, 45));
    assert_eq!(at(forecast_time(&None, &schedule(&["07:10", "09:00"]))), (7, 10));
    assert_eq!(at(forecast_time(&None, &schedule(&[]))), (8, 0));
    assert_eq!(at(forecast_time(&Some("x:15".to_owned()), &schedule(&[]))), (8, 15));
    assert_eq!(at(forecast_time(&Some("9:x".to_owned()), &schedule(&[]))), (9, 0));
    assert_eq!(at(forecast_time(&Some("25:15".to_owned()), &schedule(&[]))), (8, 0));
}

// ── Sources ─────────────────────────────────────────────────────────────────

fn bluesky() -> BlueskyAdapter {
    BlueskyAdapter {
        name: "Sky".to_owned(),
        query: "Brand Berlin".to_owned(),
        limit: 250,
        max_age_hours: 24,
        identifier: String::new(),
        password: String::new(),
    }
}

#[test]
fn adapters_fit_their_sources() {
    let mut source = SourceConfig {
        name: "N".to_owned(),
        source_type: SourceType::Rss,
        url: Some("https://a.test/feed".to_owned()),
        query: None,
        limit: None,
        max_age_hours: Some(5),
        filter: true,
        base_implied_meters: None,
        required: None,
    };
    match build_adapter(&source, None) {
        SourceAdapter::Rss(a) => {
            assert_eq!(a.url, "https://a.test/feed");
            assert_eq!(a.max_age_hours, Some(5));
        }
        _ => panic!("no feed"),
    }
    source.source_type = SourceType::Bluesky;
    source.max_age_hours = None;
    let context = BlueskyContext {
        identifier: "me".to_owned(),
        password: "secret".to_owned(),
    };
    match build_adapter(&source, Some(&context)) {
        SourceAdapter::Bluesky(a) => {
            assert_eq!((a.limit, a.max_age_hours), (25, 24));
            assert_eq!(a.query, "");
            assert_eq!(a.identifier, "me");
        }
        _ => panic!("no search"),
    }
    match build_adapter(&source, None) {
        SourceAdapter::Bluesky(a) => assert_eq!(a.password, ""),
        _ => panic!("no search"),
    }
}

#[test]
fn fresh_and_undated_items_stay() {
    let rss = |max_age_hours| RssAdapter {
        name: "N".to_owned(),
        url: String::new(),
        max_age_hours,
    };
    let items = || {
        vec![
            feed_item("old", Some(999)),
            feed_item("fresh", Some(1000)),
            feed_item("undated", None),
        ]
    };
    let kept = rss(Some(1)).keep_fresh(items(), 4600);
    let titles: Vec<&str> = kept.iter().map(|i| i.title.as_str()).collect();
    assert_eq!(titles, vec!["fresh", "undated"]);
    assert_eq!(rss(None).keep_fresh(items(), 4600).len(), 3);
}

#[test]
fn searches_are_bounded() {
    assert_eq!(
        bluesky().search_url("2024-01-15T10:30:00Z"),
        "https://bsky.social/xrpc/app.bsky.feed.searchPosts?q=Brand+Berlin&limit=100&sort=latest&since=2024-01-15T10%3A30%3A00Z"
    );
}

#[test]
fn posts_become_items() {
    let body = r#"{"posts": [
        {"uri": "at://did:plc:x/app.bsky.feed.post/key", "author": {"handle": "h.test"},
         "record": {"text": "  Brand!\nMehr dazu ", "createdAt": "2024-01-15T10:30:00Z"}},
        {"uri": "at://y", "record": {"text": "  "}},
        {"record": {"text": "no address"}},
        {"uri": "at://y", "record": {"text": "T"}}
    ]}"#;
    let items = bluesky().read_answer(body);
    assert_eq!(items.len(), 2);
    assert_eq!(items[0].guid, "at://did:plc:x/app.bsky.feed.post/key");
    assert_eq!(items[0].title, "Brand!");
    assert_eq!(items[0].link.as_deref(), Some("https://bsky.app/profile/h.test/post/key"));
    assert_eq!(items[0].description.as_deref(), Some("Brand!\nMehr dazu"));
    assert_eq!(items[0].article_text.as_deref(), Some("Brand!\nMehr dazu"));
    assert_eq!(items[0].published_at, Some(1_705_314_600));
    assert_eq!(items[0].source_name, "Sky");
    assert_eq!(items[1].link.as_deref(), Some("https://bsky.app/profile/unknown/post/y"));
    assert!(bluesky().read_answer(r#"{"error": "x"}"#).is_empty());
    assert!(bluesky().read_answer("oops").is_empty());
}

#[test]
fn sessions_are_opened() {
    assert_eq!(
        session_request_body("me\"", "p\\w").as_deref(),
        Some(r#"{"identifier":"me\"","password":"p\\w"}"#)
    );
    let s = read_session(r#"{"accessJwt": "a", "refreshJwt": "r"}"#, 7).expect("a session");
    assert_eq!((s.access_jwt.as_str(), s.refresh_jwt.as_str()), ("a", "r"));
    assert_eq!(s.expires_at, 7 + 90 * 60 * 1_000_000_000);
    assert!(read_session(r#"{"accessJwt": "a", "refreshJwt": "r", "error": "e"}"#, 0).is_none());
    assert!(read_session(r#"{"accessJwt": "a"}"#, 0).is_none());
    assert!(read_session("x", 0).is_none());
}

#[test]
fn tokens_are_used_renewed_or_replaced() {
    let session = |expires_at| {
        Some(BlueskySession {
            access_jwt: "a".to_owned(),
            refresh_jwt: "r".to_owned(),
            expires_at,
        })
    };
    let spare = 300 * 1_000_000_000_u128;
    let (kept, action) = token_step(session(spare + 1), TokenEvent::Wanted, 0);
    assert!(kept.is_some());
    assert!(matches!(action, TokenAction::Use(t) if t == "a"));
    let (_, action) = token_step(session(spare), TokenEvent::Wanted, 0);
    assert!(matches!(action, TokenAction::Refresh(t) if t == "r"));
    let (_, action) = token_step(None, TokenEvent::Wanted, 0);
    assert!(matches!(action, TokenAction::Open));
    let (kept, action) = token_step(session(0), TokenEvent::Refreshed(session(9)), 5);
    assert_eq!(kept.map(|s| s.expires_at), Some(9));
    assert!(matches!(action, TokenAction::Use(_)));
    let (_, action) = token_step(session(0), TokenEvent::Refreshed(None), 5);
    assert!(matches!(action, TokenAction::Open));
    let (kept, action) = token_step(None, TokenEvent::Opened(session(9)), 5);
    assert!(kept.is_some());
    assert!(matches!(action, TokenAction::Use(_)));
    let (_, action) = token_step(session(0), TokenEvent::Opened(None), 5);
    assert!(matches!(action, TokenAction::GiveUp));
}

// ── Disasters ───────────────────────────────────────────────────────────────

#[test]
fn events_are_near_enough_or_not() {
    let km = |x: f64| Some(float(x));
    assert!(is_in_reach(km(500.0), true, km(500.0)));
    assert!(!is_in_reach(km(500.0), true, km(500.1)));
    assert!(!is_in_reach(km(500.0), true, None));
    assert!(is_in_reach(km(500.0), false, None));
    assert!(is_in_reach(None, true, km(9999.0)));
    assert!(!is_in_reach(km(500.0), true, km(f64::NAN)));
}

#[test]
fn earthquakes_are_reported() {
    let now = 1_705_314_600;
    let body = format!(
        r#"{{"features": [
            {{"id": "q1", "geometry": {{"coordinates": [13.5, 52.5, 10]}},
              "properties": {{"title": "M 5.0", "mag": 5.04, "place": "Berlin", "alert": "green", "time": {}, "url": "https://u.test"}}}},
            {{"id": "old", "properties": {{"time": {}}}}},
            {{"properties": {{}}}},
            {{"id": "bare"}}
        ]}}"#,
        (now - 172_800) * 1000,
        (now - 172_800) * 1000 - 1
    );
    let events = read_usgs_answer(&body, now).expect("events");
    assert_eq!(events.len(), 2);
    assert_eq!(events[0].alert.key, "q1");
    assert_eq!(events[0].lat.map(|r| f64::from_bits(r.bits)), Some(52.5));
    assert_eq!(events[0].lon.map(|r| f64::from_bits(r.bits)), Some(13.5));
    assert!(events[0].alert.plain.starts_with("🚨 M 5.0\n📍 Berlin\n🕒 "));
    assert!(events[0]
        .alert
        .plain
        .ends_with("\nℹ️ Magnitude 5.0 · USGS alert: green\n🔗 https://u.test\nSource: USGS Earthquakes"));
    assert_eq!(events[1].alert.headline, "Earthquake");
    assert!(events[1].lat.is_none());
    assert!(read_usgs_answer("{}", now).expect("events").is_empty());
    assert!(read_usgs_answer("x", now).is_none());
    assert_eq!(
        usgs_description(&json(r#"{"properties": {"mag": 6.25}}"#), Some("now")),
        "🕒 now\nℹ️ Magnitude 6.2"
    );
}

#[test]
fn positions_are_read_from_feeds() {
    let xml = "<rss><item><guid> A </guid><geo:lat>1.5</geo:lat><geo:long>2</geo:long></item>\
               <item><guid>B</guid><geo:lat>x</geo:lat></item>\
               <item><guid>A</guid><geo:lat>3</geo:lat><geo:long>4</geo:long></item>\
               <guid>C</guid>";
    let positions = gdacs_positions(xml);
    assert_eq!(positions.len(), 2);
    assert_eq!(positions[0].guid, "A");
    assert_eq!(positions[0].lat, "1.5");
    let coords: Vec<(Option<Real>, Option<Real>)> = positions
        .iter()
        .map(|p| (p.lat.parse().ok().map(float), p.lon.parse().ok().map(float)))
        .collect();
    let found = gdacs_coords(&positions, &coords, "A").expect("a place");
    assert_eq!(f64::from_bits(found.0.bits), 3.0);
    assert!(gdacs_coords(&positions, &coords, "B").is_none());
    let broken = [coords[0], (None, coords[1].1)];
    let first = gdacs_coords(&positions, &broken, "A").expect("a place");
    assert_eq!(f64::from_bits(first.0.bits), 1.5);
    assert_eq!(xml_tag("<a> x </a>", "a").as_deref(), Some("x"));
    assert_eq!(xml_tag("<a>x", "a"), None);
    assert_eq!(xml_tag("</a><a>y</a>", "a").as_deref(), Some("y"));
}

#[test]
fn disasters_matter_unless_green_or_old() {
    let now = 1_000_000;
    assert!(is_actionable(&feed_item("Orange flood", Some(now - 172_800)), now));
    assert!(!is_actionable(&feed_item("Orange flood", Some(now - 172_801)), now));
    assert!(!is_actionable(&feed_item("GREEN earthquake", None), now));
    assert!(is_actionable(&feed_item("Red green", None), now));
    assert_eq!(
        gdacs_description(&feed_item("T", None), Some((float(1.005), float(-2.0))), None),
        "📍 1.00, -2.00\nℹ️ First. Second."
    );
    let alert = gdacs_alert(&feed_item("Red flood", None), None);
    assert_eq!(
        alert.plain,
        "🚨 Red flood\nℹ️ First. Second.\n🔗 https://a.test/1\nSource: GDACS"
    );
    assert_eq!(alert.key, "g");
}

// ── Weather ─────────────────────────────────────────────────────────────────

#[test]
fn weather_has_pictures() {
    assert_eq!(brightsky_icon("clear-day"), ("☀️", "Clear"));
    assert_eq!(brightsky_icon("thunderstorm"), ("⛈️", "Thunderstorm"));
    assert_eq!(brightsky_icon(""), ("🌡️", "Unknown"));
    assert_eq!(wmo_icon(0), ("☀️", "Clear"));
    assert_eq!(wmo_icon(57), ("🌦️", "Freezing drizzle"));
    assert_eq!(wmo_icon(99), ("⛈️", "Thunderstorm with hail"));
    assert_eq!(wmo_icon(-1), ("🌡️", "Unknown"));
    let labels: Vec<&str> = [7, 13, 18, 22, 3].iter().map(|h| period_label(*h)).collect();
    assert_eq!(labels, vec!["🌅 Morning", "🌞 Midday", "🌆 Evening", "🌙 Night", "⏰"]);
}

#[test]
fn local_hours_are_moved_to_greenwich() {
    assert_eq!(utc_hour(7, 7200), 5);
    assert_eq!(utc_hour(0, 3600), 23);
    assert_eq!(utc_hour(22, -10800), 1);
    assert_eq!(utc_hour(7, -1800), 7);
    assert_eq!(utc_hour(7, 19800), 2);
}

const ROWS: &str = "🌅 Morning: ☀️ 20°C  💧 10%  💨 4 km/h\n🌞 Midday: 🌡️ 25°C  💧 0%  💨 0 km/h\n🌆 Evening: 🌙 -0°C  💧 0%  💨 0 km/h\n🌙 Night: ☁️ 18°C  💧 0%  💨 0 km/h";

#[test]
fn forecasts_are_read_from_bright_sky() {
    let body = r#"{"weather": [
        {"timestamp": "never"},
        {"timestamp": "2026-06-20T05:00:00+00:00", "temperature": 19.5, "precipitation_probability": 10, "wind_speed": 3.6, "icon": "clear-day"},
        {"timestamp": "2026-06-20T11:00:00+00:00", "temperature": 25},
        {"timestamp": "2026-06-20T16:00:00+00:00", "temperature": -0.4, "icon": "clear-night"},
        {"timestamp": "2026-06-20T20:00:00+00:00", "temperature": 17.6, "icon": "cloudy"}
    ]}"#;
    let (plain, html) = read_brightsky_answer(body, 7200, "Saturday, 20 Jun").expect("a forecast");
    assert_eq!(plain, format!("Weather — Saturday, 20 Jun\n{}", ROWS));
    assert!(html.starts_with(
        "<strong>Weather — Saturday, 20 Jun</strong><br>🌅 Morning: ☀️ 20°C &nbsp; 💧 10% &nbsp; 💨 4 km/h<br>"
    ));
    assert!(read_brightsky_answer(body, 3600, "d").is_none());
    assert!(read_brightsky_answer("{}", 0, "d").is_none());
    assert!(read_brightsky_answer("x", 0, "d").is_none());
    assert_eq!(
        brightsky_url("52.5", "13.4", "2026-06-20"),
        "https://api.brightsky.dev/weather?lat=52.5&lon=13.4&date=2026-06-20"
    );
}

#[test]
fn forecasts_are_read_from_open_meteo() {
    let mut temperatures = vec!["1"; 24];
    temperatures[7] = "19.5";
    temperatures[13] = "25";
    temperatures[18] = "-0.4";
    temperatures[22] = "17.6";
    let body = format!(
        r#"{{"hourly": {{"temperature_2m": [{}], "weathercode": [0,0,0,0,0,0,0,0,0,0,0,0,0,4,0,0,0,0,77], "precipitation_probability": [0,0,0,0,0,0,0,10], "windspeed_10m": [0,0,0,0,0,0,0,3.6]}}}}"#,
        temperatures.join(",")
    );
    let (plain, _) = read_openmeteo_answer(&body, "d").expect("a forecast");
    assert_eq!(
        plain,
        "Weather — d\n🌅 Morning: ☀️ 20°C  💧 10%  💨 4 km/h\n🌞 Midday: 🌡️ 25°C  💧 0%  💨 0 km/h\n🌆 Evening: 🌨️ -0°C  💧 0%  💨 0 km/h\n🌙 Night: ☀️ 18°C  💧 0%  💨 0 km/h"
    );
    assert!(read_openmeteo_answer("{}", "d").is_none());
    assert!(read_openmeteo_answer("x", "d").is_none());
    assert_eq!(
        openmeteo_url("1", "2"),
        "https://api.open-meteo.com/v1/forecast?latitude=1&longitude=2&hourly=weathercode,temperature_2m,precipitation_probability,windspeed_10m&timezone=auto&forecast_days=1"
    );
}

#[test]
fn forecasts_need_lines() {
    assert!(format_message(&Vec::new(), &Vec::new(), "d").is_none());
    let (plain, html) =
        format_message(&owned(&["a", "b"]), &owned(&["c", "d"]), "D").expect("a message");
    assert_eq!(plain, "Weather — D\na\nb");
    assert_eq!(html, "<strong>Weather — D</strong><br>c<br>d");
}

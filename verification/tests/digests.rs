use radar_bot::cluster::{
    cluster_db_items, cluster_digest_items, likely_same_incident, locations_compatible,
    normalized_location_label, sort_by_score, unique_source_names,
};
use radar_bot::digest::{chunk_digest, digest_messages, format_digest};
use radar_bot::ieee::Real;
use radar_bot::item::{DbItem, DigestItem};

fn float(x: f64) -> Real {
    Real { bits: x.to_bits() }
}

fn item(guid: &str, source: &str, title: &str, score: i32) -> DbItem {
    DbItem {
        guid: guid.to_owned(),
        source_name: source.to_owned(),
        title: title.to_owned(),
        link: None,
        link_note: None,
        score,
        max_score: 5,
        distance_meters: None,
        location_label: None,
    }
}

#[test]
fn digest_includes_location_with_distance() {
    let item = DigestItem {
        guids: vec!["1".to_owned()],
        source_name: "Local".to_owned(),
        source_count: 1,
        title: "Street closed".to_owned(),
        link: None,
        link_note: None,
        score: 4,
        max_score: 5,
        distance_meters: Some(float(350.0)),
        location_label: Some("Boxhagener Platz".to_owned()),
    };

    let (plain, html) = format_digest(&[item], "Test");

    assert!(plain.contains("~350m · Boxhagener Platz"));
    assert!(html.contains("~350m · Boxhagener Platz"));
}

#[test]
fn clustering_collapses_multi_source_same_incident_and_boosts_score() {
    let a = DbItem {
        guid: "a".to_owned(),
        source_name: "Source A".to_owned(),
        title: "Brand in der Rigaer Straße".to_owned(),
        link: Some("https://a.test/1".to_owned()),
        link_note: None,
        score: 3,
        max_score: 5,
        distance_meters: Some(float(700.0)),
        location_label: Some("Rigaer Straße".to_owned()),
    };
    let b = DbItem {
        guid: "b".to_owned(),
        source_name: "Source B".to_owned(),
        title: "Feuerwehreinsatz Rigaer Straße nach Brand".to_owned(),
        link: Some("https://b.test/2".to_owned()),
        link_note: None,
        score: 3,
        max_score: 5,
        distance_meters: Some(float(730.0)),
        location_label: Some("Rigaer Straße".to_owned()),
    };

    let clustered = cluster_digest_items(vec![a, b]);

    assert_eq!(clustered.len(), 1);
    assert_eq!(clustered[0].guids, vec!["a", "b"]);
    assert_eq!(clustered[0].source_count, 2);
    assert_eq!(clustered[0].score, 4);
    assert!(clustered[0].source_name.contains("Source A"));
    assert!(clustered[0].source_name.contains("Source B"));
}

#[test]
fn messages_are_laid_out_in_full() {
    let item = DigestItem {
        guids: vec!["1".to_owned()],
        source_name: "A & B".to_owned(),
        source_count: 2,
        title: "<Title>".to_owned(),
        link: Some("https://a.test/?x=1&y=2".to_owned()),
        link_note: Some("rolling source link".to_owned()),
        score: 5,
        max_score: 5,
        distance_meters: Some(float(1250.0)),
        location_label: Some(" Platz ".to_owned()),
    };
    let bare = DigestItem::from_db(DbItem {
        max_score: 0,
        ..item_without_score()
    });
    let (plain, html) = format_digest(&[item, bare], "Header <1>");
    assert_eq!(
        plain,
        "📡 Header <1>\n\n🔴 [A & B] <Title> [5/5 2 sources ~1.2km · Platz] — https://a.test/?x=1&y=2 (rolling source link)\n⚪ [S] T"
    );
    assert_eq!(
        html,
        "📡 <strong>Header &lt;1&gt;</strong><br>🔴 <em>[A &amp; B]</em> &lt;Title&gt; <em>[5/5 2 sources ~1.2km · Platz]</em> — <a href=\"https://a.test/?x=1&amp;y=2\">link</a> <em>(rolling source link)</em><br>⚪ <em>[S]</em> T"
    );
}

fn item_without_score() -> DbItem {
    item("2", "S", "T", 0)
}

#[test]
fn messages_without_items_are_the_header() {
    let (plain, html) = format_digest(&[], "H");
    assert_eq!(plain, "📡 H");
    assert_eq!(html, "📡 <strong>H</strong>");
}

#[test]
fn sorting_keeps_the_order_of_equals() {
    let sorted = sort_by_score(vec![
        item("a", "S", "T", 1),
        item("b", "S", "T", 3),
        item("c", "S", "T", 1),
        item("d", "S", "T", 3),
    ]);
    let guids: Vec<&str> = sorted.iter().map(|i| i.guid.as_str()).collect();
    assert_eq!(guids, vec!["b", "d", "a", "c"]);
}

#[test]
fn places_are_compatible_by_name_or_distance() {
    let mut a = item("a", "S", "T", 1);
    let mut b = item("b", "S", "T", 1);
    assert!(!locations_compatible(&a, &b));
    a.location_label = Some(" Rigaer STRASSE ".to_owned());
    b.location_label = Some("Rigaer Str.".to_owned());
    assert_eq!(normalized_location_label(&a).as_deref(), Some("rigaer str"));
    assert!(locations_compatible(&a, &b));
    b.location_label = Some("Platz".to_owned());
    assert!(!locations_compatible(&a, &b));
    a.distance_meters = Some(float(100.0));
    b.distance_meters = Some(float(400.0));
    assert!(locations_compatible(&a, &b));
    b.distance_meters = Some(float(400.1));
    assert!(!locations_compatible(&a, &b));
    a.location_label = Some("  ".to_owned());
    assert_eq!(normalized_location_label(&a), None);
}

#[test]
fn the_same_link_is_the_same_incident() {
    let mut a = item("a", "S", "Eins", 1);
    let mut b = item("b", "S", "Zwei", 1);
    assert!(!likely_same_incident(&a, &[b.clone()]));
    a.link = Some("https://x.test".to_owned());
    b.link = Some("https://x.test".to_owned());
    assert!(likely_same_incident(&a, &[b.clone()]));
    assert!(!likely_same_incident(&a, &[]));
    let clusters = cluster_db_items(vec![a, item("c", "S", "Drei", 4), b]);
    let guids: Vec<Vec<&str>> = clusters
        .iter()
        .map(|c| c.iter().map(|i| i.guid.as_str()).collect())
        .collect();
    assert_eq!(guids, vec![vec!["c"], vec!["a", "b"]]);
}

#[test]
fn boosts_stop_at_the_top() {
    let mut a = item("a", "A", "T", 5);
    let mut b = item("b", "B", "T", 2);
    let mut c = item("c", "b", "T", 1);
    for i in [&mut a, &mut b, &mut c] {
        i.link = Some("https://x.test".to_owned());
    }
    let merged = cluster_digest_items(vec![b, c, a]);
    assert_eq!(merged.len(), 1);
    assert_eq!(merged[0].score, 5);
    assert_eq!(merged[0].source_name, "A + B");
    assert_eq!(merged[0].guids, vec!["a", "b", "c"]);
}

#[test]
fn names_are_unique_whatever_the_case() {
    let names: Vec<String> = ["A", "a", "B", "A"].iter().map(|s| s.to_string()).collect();
    assert_eq!(unique_source_names(&names), vec!["A", "B"]);
}

#[test]
fn chunks_hold_few_items() {
    let items: Vec<DigestItem> = (0..20)
        .map(|i| DigestItem::from_db(item(&i.to_string(), "S", "T", i % 6)))
        .collect();
    let chunks = chunk_digest(&items);
    assert_eq!(chunks.len(), 2);
    assert_eq!(chunks[0].len(), 15);
    assert_eq!(chunks[1].len(), 5);
    assert_eq!(chunks[0][0].score, 5);
    assert_eq!(chunks[1][4].score, 0);
}

#[test]
fn chunks_hold_few_bytes() {
    let long = "x".repeat(3_900);
    let items: Vec<DigestItem> = (0..5)
        .map(|i| DigestItem::from_db(item(&i.to_string(), "S", &long, 1)))
        .collect();
    let sizes: Vec<usize> = chunk_digest(&items).iter().map(|c| c.len()).collect();
    assert_eq!(sizes, vec![2, 2, 1]);
    let huge = DigestItem::from_db(item("h", "S", &"x".repeat(9_000), 1));
    assert_eq!(chunk_digest(&[huge]).len(), 1);
}

#[test]
fn messages_name_all_items_once() {
    let items: Vec<DbItem> = (0..20)
        .map(|i| item(&i.to_string(), "S", "T", i % 6))
        .collect();
    let messages = digest_messages(items, "Digest");
    assert_eq!(messages.len(), 2);
    assert!(messages[0].plain.starts_with("📡 Digest (1/2)\n"));
    assert!(messages[1].html.starts_with("📡 <strong>Digest (2/2)</strong>"));
    let mut guids: Vec<u32> = messages
        .iter()
        .flat_map(|m| m.guids.iter().map(|g| g.parse().expect("a number")))
        .collect();
    guids.sort();
    assert_eq!(guids, (0..20).collect::<Vec<u32>>());
    let one = digest_messages(vec![item("1", "S", "T", 1)], "Digest");
    assert!(one[0].plain.starts_with("📡 Digest\n"));
    assert!(digest_messages(Vec::new(), "Digest").is_empty());
}

use radar_bot::dates::{parse_feed_date, since_iso8601, FIRST_SECOND, LAST_SECOND};
use radar_bot::feed::{
    feed_items, normalize_feed_entry, parse_feed, preferred_entry_link, FeedEntry, FeedLink,
};
use radar_bot::readable::can_be_read;

fn link(href: &str, rel: Option<&str>) -> FeedLink {
    FeedLink {
        href: href.to_owned(),
        rel: rel.map(str::to_owned),
    }
}

fn entry(title: Option<&str>, summary: Option<&str>, body: Option<&str>) -> FeedEntry {
    FeedEntry {
        id: String::new(),
        title: title.map(str::to_owned),
        summary: summary.map(str::to_owned),
        body: body.map(str::to_owned),
        links: Vec::new(),
        published: None,
        updated: None,
    }
}

#[test]
fn parses_rss_with_namespaced_content() {
    let xml = r#"<?xml version="1.0" encoding="UTF-8"?>
<rss version="2.0" xmlns:content="http://purl.org/rss/1.0/modules/content/">
  <channel>
    <title>Local</title>
    <link>https://example.test/</link>
    <description>Local feed</description>
    <item>
      <title><![CDATA[Incident &amp; update]]></title>
      <link>https://example.test/news/1</link>
      <guid isPermaLink="false">abc-1</guid>
      <pubDate>Mon, 15 Jan 2024 10:30:00 +0000</pubDate>
      <description><![CDATA[Short <b>summary</b>]]></description>
      <content:encoded><![CDATA[Full <strong>article</strong> body]]></content:encoded>
    </item>
  </channel>
</rss>"#;

    let items = parse_feed(xml, "Test RSS");

    assert_eq!(items.len(), 1);
    assert_eq!(items[0].guid, "abc-1");
    assert_eq!(items[0].title, "Incident & update");
    assert_eq!(
        items[0].link.as_deref(),
        Some("https://example.test/news/1")
    );
    assert_eq!(items[0].description.as_deref(), Some("Short summary"));
    assert_eq!(items[0].published_at, Some(1_705_314_600));
}

#[test]
fn parses_atom_link_href_and_updated_date() {
    let xml = r#"<?xml version="1.0" encoding="UTF-8"?>
<feed xmlns="http://www.w3.org/2005/Atom">
  <title>Atom Feed</title>
  <id>feed-id</id>
  <updated>2024-01-15T10:00:00Z</updated>
  <entry>
    <title>Atom entry</title>
    <id>tag:example.test,2024:entry-1</id>
    <updated>2024-01-15T11:30:00+01:00</updated>
    <link rel="alternate" href="https://example.test/atom/1" />
    <summary type="html">Atom &lt;b&gt;summary&lt;/b&gt;</summary>
  </entry>
</feed>"#;

    let items = parse_feed(xml, "Test Atom");

    assert_eq!(items.len(), 1);
    assert_eq!(items[0].guid, "tag:example.test,2024:entry-1");
    assert_eq!(items[0].title, "Atom entry");
    assert_eq!(
        items[0].link.as_deref(),
        Some("https://example.test/atom/1")
    );
    assert_eq!(items[0].description.as_deref(), Some("Atom summary"));
    assert_eq!(items[0].published_at, Some(1_705_314_600));
}

#[test]
fn what_is_no_feed_has_no_items() {
    assert!(parse_feed("<html></html>", "X").is_empty());
    assert!(parse_feed("", "X").is_empty());
}

fn rss(spaces: &str, in_item: &str) -> String {
    format!(
        "<rss version=\"2.0\" {spaces}><channel><title>C</title><item><title>T</title>{in_item}</item></channel></rss>"
    )
}

const MEDIA: &str = "xmlns:media=\"http://search.yahoo.com/mrss/\"";
const ITUNES: &str = "xmlns:itunes=\"http://www.itunes.com/dtds/podcast-1.0.dtd\"";

#[test]
fn ids_are_kept_also_without_links() {
    let items = parse_feed(&rss("", "<guid isPermaLink=\"false\">id-7</guid>"), "X");
    assert_eq!(items.len(), 1);
    assert_eq!(items[0].guid, "id-7");
    assert_eq!(items[0].link, None);

    let linked = rss("", "<link>https://a.test/1</link>");
    let first = parse_feed(&linked, "X");
    let again = parse_feed(&linked, "X");
    assert_eq!(first.len(), 1);
    assert!(!first[0].guid.is_empty());
    assert_eq!(first[0].guid, again[0].guid);

    let bare = parse_feed(&rss("", ""), "X");
    assert_eq!(bare.len(), 1);
    assert_eq!(bare[0].title, "T");
}

fn is_read(feed: &str) -> bool {
    let readable = can_be_read(feed);
    assert_eq!(parse_feed(feed, "X").len(), usize::from(readable));
    readable
}

#[test]
fn feeds_with_play_times_are_read() {
    for time in ["", "90", "12:05:35.123", "999999999999999:59:59", "soon", "ü 1½ 日", "&#49;&#x32;"] {
        assert!(is_read(&rss(ITUNES, &format!("<itunes:duration>{time}</itunes:duration>"))));
        assert!(is_read(&rss(ITUNES, &format!("<itunes:duration a='b'>{time}<x/></itunes:duration>"))));
        let data = format!("<itunes:duration><![CDATA[{time}]]></itunes:duration>");
        assert!(is_read(&rss(ITUNES, &data)));
        let picture = format!("<media:thumbnail url='https://a.test/p' time = \"{time}\"/>");
        assert!(is_read(&rss(MEDIA, &picture)));
        let text = format!("<media:text start='{time}' end='{time}'>x</media:text>");
        assert!(is_read(&rss(MEDIA, &text)));
    }
    assert!(is_read(&rss(MEDIA, "<media:text start='&' end='&x'>x</media:text>")));
    assert!(is_read(&rss(ITUNES, "<itunes:duration>123<!-- 4 --><?x 5?>678</itunes:duration>")));
}

#[test]
fn play_times_that_are_too_long_are_not_read() {
    let nines = "9".repeat(23);
    let references = "&#49;".repeat(16);
    for time in [nines.as_str(), "1234567890123456:00:00", &references, "&#x661;", "\u{661}", "１"] {
        assert!(!is_read(&rss(ITUNES, &format!("<itunes:duration>{time}</itunes:duration>"))));
        assert!(!is_read(&rss(MEDIA, &format!("<media:thumbnail url=''time='{time}'/>"))));
        for name in ["start", "end"] {
            let text = format!("<media:text {name}\n=\t\"{time}\">x</media:text>");
            assert!(!is_read(&rss(MEDIA, &text)));
        }
        let default = "xmlns=\"http://www.itunes.com/dtds/podcast-1.0.dtd\"";
        assert!(!is_read(&rss("", &format!("<duration {default}>{time}</duration>"))));
    }
    for split in [
        "12345678<!-- -->12345678",
        "12345678<?x?>12345678",
        "<![CDATA[12345678]]>12345678",
        "12345678&#49;<![CDATA[2345678]]>",
    ] {
        assert!(!is_read(&rss(ITUNES, &format!("<itunes:duration>{split}</itunes:duration>"))));
    }
}

#[test]
fn long_numbers_elsewhere_do_no_harm() {
    let nines = "9".repeat(23);
    let plain = rss("", &format!("<guid>{nines}</guid><duration>{nines}</duration>"));
    assert!(is_read(&plain));
    assert_eq!(parse_feed(&plain, "X")[0].guid, nines);
    let both = format!("{MEDIA} {ITUNES} xmlns:yt='https://v.test/'");
    for harmless in [
        format!("<media:content url='https://a.test/m' duration='{nines}' datetime='ü'/>"),
        format!("<media:text time='{nines}'>x</media:text><media:thumbnail url='u' end='{nines}'/>"),
        format!("<x start='{nines}' end='&' time='１'/>"),
        format!("<yt:duration a='b'>{nines}</yt:duration><itunes:duration/>{nines}"),
        format!("<description><![CDATA[<media:text end='{nines}'><itunes:duration>{nines}]]></description>"),
        format!("<!-- <itunes:duration>{nines}</itunes:duration> -->"),
        "<x end='&'/>".to_owned(),
    ] {
        let feed = rss(&both, &format!("<guid>{nines}</guid>{harmless}"));
        assert!(is_read(&feed));
        assert_eq!(parse_feed(&feed, "X")[0].guid, nines);
    }
}

#[test]
fn deep_feeds_are_not_read() {
    for part in [
        "<a>",
        "<a><!--</a>-->",
        "<a><![CDATA[</a>]]>",
        "<a><?x </a>?>",
        "<a b='</a>'>",
        "<a></b>",
        "<a><!DOCTYPE x [<!ENTITY y '</a>'>]>",
    ] {
        let deep = format!("<feed>{}", part.repeat(65_535));
        assert!(!can_be_read(&deep));
        assert!(parse_feed(&deep, "X").is_empty());
    }
    let unclosed = format!("<feed>{}", "<a>".repeat(65_534));
    assert!(can_be_read(&unclosed));
    assert!(parse_feed(&unclosed, "X").is_empty());
    assert!(is_read(&rss("", &format!("<x>{}{}</x>", "<a>".repeat(9000), "</a >".repeat(9000)))));
    assert!(is_read(&rss("", &"<a></a><b/><?c?><!-- <d> -->".repeat(70_000))));
}

#[test]
fn elements_that_are_read_by_recursion_are_few() {
    let contents = |n: usize| {
        let start = "<media:content url='https://a.test/m'>".repeat(n);
        rss(MEDIA, &format!("{start}{}", "</media:content>".repeat(n)))
    };
    assert!(is_read(&contents(16)));
    assert!(!is_read(&contents(17)));
    assert!(!is_read(&contents(50_000)));
    let categories = |n: usize| {
        let start = "<itunes:category text='t'>".repeat(n);
        let end = "</itunes:category>".repeat(n);
        format!(
            "<rss version='2.0' {ITUNES}><channel>{start}{end}<item><title>T</title></item></channel></rss>"
        )
    };
    assert!(is_read(&categories(16)));
    assert!(!is_read(&categories(17)));
    let others = format!("{}{}", "<content>".repeat(20), "</content>".repeat(20));
    assert!(is_read(&rss(MEDIA, &others)));
    let closed = "<media:content url='https://a.test/m'></media:content>".repeat(40);
    assert!(is_read(&rss(MEDIA, &closed)));
}

#[test]
fn other_encodings_are_read_with_care() {
    let declared = |label: &str, feed: String| {
        format!("<?xml version=\"1.0\" encoding=\"{label}\"?>{feed}")
    };
    let umlaut = || rss(ITUNES, "<itunes:duration>1ü</itunes:duration>");
    assert!(is_read(&declared("utf-8", umlaut())));
    assert!(is_read(&declared("UTF-8", umlaut())));
    assert!(!is_read(&declared("windows-874", umlaut())));
    assert!(is_read(&declared("windows-874", rss(ITUNES, "<guid>ü</guid>"))));
    let odd = || rss("", "<guid>a\u{1b}b</guid>");
    assert!(is_read(&odd()));
    assert!(is_read(&declared("UTF-8", odd())));
    assert!(!is_read(&declared("iso-2022-jp", odd())));
    assert!(!can_be_read("<\u{0}?\u{0}x"));
}

#[test]
fn document_types_are_passed_over() {
    for doctype in [
        "<!DOCTYPE rss PUBLIC '-//N//>' \"x\">",
        "<!doctype rss [<!-- ]> --><?x ]>?><!ELEMENT a ANY><!ATTLIST a b CDATA ']>'><!NOTATION n '>'>] >",
        "<!DOCTYPE>",
    ] {
        let feed = format!("{doctype}{}", rss("", &"<a>".repeat(3)));
        assert!(can_be_read(&feed));
    }
    let fine = format!("<!DOCTYPE rss [<!ENTITY x '<a>'>]>{}", rss("", ""));
    assert!(is_read(&fine));
    assert!(can_be_read("<!x><a>"));
    assert!(can_be_read("<![x]]><a>"));
    assert!(can_be_read("<a"));
    assert!(can_be_read("<?>"));
}

#[test]
fn feeds_in_json_are_read() {
    let html = "<b>".repeat(70_000);
    let json = format!(
        "{{\"version\":\"https://jsonfeed.org/version/1\",\"title\":\"F\",\"items\":[{{\"id\":\"7\",\"title\":\"T{html}\"}}]}}"
    );
    assert!(is_read(&json));
    assert_eq!(parse_feed(&json, "X")[0].guid, "7");
}

#[test]
fn headlines_come_from_what_there_is() {
    let item = normalize_feed_entry(entry(Some("<b>T</b>"), Some("S"), Some("B")), "X").expect("an item");
    assert_eq!(item.title, "T");
    assert_eq!(item.description.as_deref(), Some("S"));
    assert_eq!(item.guid, "X::T");
    assert_eq!(item.source_name, "X");
    let long = "ä".repeat(130);
    let item = normalize_feed_entry(entry(Some(" "), Some(&long), None), "X").expect("an item");
    assert_eq!(item.title, "ä".repeat(120));
    assert_eq!(item.description.as_deref(), Some(long.as_str()));
    let item = normalize_feed_entry(entry(None, Some("<br>"), Some("Body")), "X").expect("an item");
    assert_eq!(item.title, "Body");
    assert_eq!(item.description.as_deref(), Some("Body"));
    assert!(normalize_feed_entry(entry(None, None, Some(" ")), "X").is_none());
}

#[test]
fn links_prefer_the_alternate_one() {
    let mut e = entry(Some("T"), None, None);
    e.links = vec![
        link("https://a.test/self", Some("self")),
        link(" https://a.test/1 ", Some("alternate")),
    ];
    e.published = None;
    e.updated = Some(7);
    assert_eq!(preferred_entry_link(&e).as_deref(), Some("https://a.test/1"));
    let item = normalize_feed_entry(e, "X").expect("an item");
    assert_eq!(item.guid, "https://a.test/1");
    assert_eq!(item.published_at, Some(7));

    let mut only = entry(Some("T"), None, None);
    only.links = vec![link("https://a.test/self", Some("self"))];
    only.id = "id-1".to_owned();
    only.published = Some(5);
    only.updated = Some(7);
    assert_eq!(preferred_entry_link(&only).as_deref(), Some("https://a.test/self"));
    let items = feed_items(vec![only, entry(None, None, None)], "X");
    assert_eq!(items.len(), 1);
    assert_eq!(items[0].guid, "id-1");
    assert_eq!(items[0].published_at, Some(5));

    let mut blank = entry(Some("T"), None, None);
    blank.links = vec![link("  ", None), link("https://a.test/2", None)];
    assert_eq!(preferred_entry_link(&blank), None);
}

#[test]
fn dates_are_read_in_both_notations() {
    assert_eq!(parse_feed_date(" 2024-01-15T10:30:00Z "), Some(1_705_314_600));
    assert_eq!(parse_feed_date("2024-01-15T11:30:00+01:00"), Some(1_705_314_600));
    assert_eq!(parse_feed_date("Mon, 15 Jan 2024 10:30:00 +0000"), Some(1_705_314_600));
    assert_eq!(parse_feed_date(""), None);
    assert_eq!(parse_feed_date("yesterday"), None);
}

#[test]
fn times_are_written_for_searches() {
    assert_eq!(since_iso8601(1_705_314_600, 0), "2024-01-15T10:30:00Z");
    assert_eq!(since_iso8601(1_705_314_600, 24), "2024-01-14T10:30:00Z");
}

#[test]
fn the_calendar_ends_where_it_is_said_to() {
    assert!(chrono::DateTime::from_timestamp(FIRST_SECOND, 0).is_some());
    assert!(chrono::DateTime::from_timestamp(FIRST_SECOND - 1, 0).is_none());
    assert!(chrono::DateTime::from_timestamp(LAST_SECOND, 0).is_some());
    assert!(chrono::DateTime::from_timestamp(LAST_SECOND + 1, 0).is_none());
}

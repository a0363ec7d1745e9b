use radar_bot::article::{
    article_container_score, attr_value, describe_link, external_href_from_google_html,
    extract_article_body, link_rel_value, meta_property_value, read_article, remove_blocks,
    resolve_article_link, tag_blocks, try_attr_value, try_external_href_from_google_html,
    try_extract_article_body, try_link_rel_value, try_meta_property_value, try_remove_blocks,
    try_resolve_article_link, try_tag_blocks,
};
use radar_bot::streets::extract_street_evidence;

#[test]
fn rolling_link_gets_note_when_title_no_longer_matches() {
    let html = r#"
            <html><head><link rel="canonical" href="https://example.test/live/ticker" /></head>
            <body><main>Aktuelle Meldungen zur Verkehrslage ohne den alten Eintrag.</main></body></html>
        "#;
    let (link, note) = resolve_article_link(
        "https://example.test/liveticker",
        html,
        "Aktuelle Meldungen zur Verkehrslage ohne den alten Eintrag.",
        "Brand in der Rigaer Straße",
    );

    assert_eq!(link.as_deref(), Some("https://example.test/live/ticker"));
    assert_eq!(
        note.as_deref(),
        Some("rolling source link may no longer show this item")
    );
}

#[test]
fn google_news_link_resolves_to_external_publisher_when_available() {
    let html = r#"
            <html><head><link rel="canonical" href="https://news.google.com/rss/articles/abc" /></head>
            <body><a href="https://www.google.com/url?url=https%3A%2F%2Fpublisher.test%2Farticle%2F1">Publisher</a></body></html>
        "#;
    let (link, note) = resolve_article_link(
        "https://news.google.com/rss/articles/abc",
        html,
        "Brand in der Rigaer Straße mit Feuerwehreinsatz",
        "Brand in der Rigaer Straße",
    );

    assert_eq!(link.as_deref(), Some("https://publisher.test/article/1"));
    assert_eq!(note, None);
}

#[test]
fn article_extraction_prefers_article_like_content_over_navigation() {
    let html = r#"
            <html><body>
                <div class="nav">Start Politik Sport Wetter Navigation Werbung</div>
                <div class="article-body">
                    <p>Brand in der Rigaer Straße. Die Feuerwehr war am Abend im Einsatz.</p>
                    <p>Mehrere Menschen bemerkten Rauch in einem Wohnhaus nahe der Kreuzung.</p>
                    <p>Die Polizei sperrte den Bereich zeitweise ab und leitete den Verkehr um.</p>
                    <p>Weitere Details sollen im Laufe des Tages bekannt gegeben werden.</p>
                </div>
                <footer>Impressum Datenschutz Kontakt Newsletter</footer>
            </body></html>
        "#;

    let body = extract_article_body(html);

    assert!(body.contains("Brand in der Rigaer Straße"));
    assert!(!body.contains("Impressum Datenschutz"));
}

#[test]
fn street_evidence_ignores_boilerplate_after_impressum() {
    let evidence = extract_street_evidence(
        "Brand in der Rigaer Straße",
        None,
        Some("Weitere Details folgen. Impressum Kontakt Alexanderplatz 1 Datenschutz."),
    );
    let candidates: Vec<String> = evidence.into_iter().map(|e| e.candidate).collect();

    assert!(candidates.iter().any(|c| c.contains("Rigaer Straße")));
    assert!(!candidates.iter().any(|c| c.contains("Alexanderplatz")));
}

/// A page whose lowercase form is longer, so that a tag is found in the middle of a
/// character.
const SHIFTED: &str = "İİİ<pä>x</p>";

#[test]
fn elements_are_found_whatever_the_case() {
    assert_eq!(
        tag_blocks("<P a=1>one</p><p>two</P><p>open", "p"),
        vec![("<P a=1>", "one"), ("<p>", "two")]
    );
    assert_eq!(tag_blocks("<pre>x</p>", "p"), vec![("<pre>", "x")]);
    assert!(tag_blocks("", "p").is_empty());
    assert_eq!(try_tag_blocks("<p>x</p>", "p"), Some(vec![("<p>", "x")]));
    assert_eq!(try_tag_blocks(SHIFTED, "p"), None);
}

#[test]
fn elements_are_removed() {
    assert_eq!(
        remove_blocks("a<SCRIPT x>b</script>c<nav>d</nav>e<script>f</script>", &["script", "nav"]),
        "ace"
    );
    assert_eq!(remove_blocks("</nav><nav>x</nav>", &["nav"]), "</nav>");
    assert_eq!(remove_blocks("a</nav>b<nav>c</nav>d", &["nav"]), "a</nav>bd");
    assert_eq!(remove_blocks("a<nav>b", &["nav"]), "a<nav>b");
    assert_eq!(try_remove_blocks("a<nav>b</nav>", &["nav"]).as_deref(), Some("a"));
    assert_eq!(try_remove_blocks("İİİ<navä>x</nav>", &["nav"]), None);
}

#[test]
fn containers_are_scored() {
    let words = "wort ".repeat(160);
    assert_eq!(article_container_score("<div class=\"article-body\">", &words), 10);
    assert_eq!(article_container_score("<DIV CLASS=\"Article\">", ""), 4);
    assert_eq!(article_container_score("<div class=\"nav\">", ""), -5);
    assert_eq!(article_container_score("<div>", &"w ".repeat(8000)), 8);
}

#[test]
fn short_containers_do_not_count() {
    assert_eq!(extract_article_body("<article>kurz</article> rest"), "kurz rest");
    let long = "Satz mit Inhalt. ".repeat(20);
    let html = format!("<main>{long}</main><article>{long}mehr</article>");
    assert_eq!(extract_article_body(&html), format!("{}mehr", long));
    assert_eq!(
        try_extract_article_body("<nav>x</nav> <b>y</b>").as_deref(),
        Some("y")
    );
    assert_eq!(try_extract_article_body("İİİ<navä>x</nav>"), None);
}

#[test]
fn attributes_are_read() {
    assert_eq!(attr_value("<a HREF=' x ' class=\"y\">", "href").as_deref(), Some("x"));
    assert_eq!(attr_value("<a href=x>", "href"), None);
    assert_eq!(attr_value("<a href=\"  \">", "href"), None);
    assert_eq!(attr_value("<a href=\"open", "href").as_deref(), Some("open"));
    assert_eq!(attr_value("<a>", "href"), None);
    assert_eq!(try_attr_value("<a href='x'>", "href"), Some(Some("x".to_owned())));
    assert_eq!(try_attr_value("İİİhref='ä", "href"), Some(None));
    assert_eq!(try_attr_value("İİ href='ä", "href"), None);
}

#[test]
fn links_and_properties_are_found() {
    let html = "<LINK rel='alternate' href='a'><link rel='x CANONICAL' href='b'>\
                <meta property='og:title' content='t'><meta name='OG:url' content='c'>";
    assert_eq!(link_rel_value(html, "canonical").as_deref(), Some("b"));
    assert_eq!(link_rel_value(html, "icon"), None);
    assert_eq!(meta_property_value(html, "og:url").as_deref(), Some("c"));
    assert_eq!(meta_property_value(html, "og:image"), None);
    assert_eq!(try_link_rel_value(html, "icon"), Some(None));
    assert_eq!(try_link_rel_value("İ<link>abcdef", "icon"), Some(None));
    assert_eq!(try_link_rel_value("İİİ<linkä>", "icon"), None);
    assert_eq!(try_meta_property_value(html, "og:url"), Some(Some("c".to_owned())));
}

#[test]
fn external_links_are_found() {
    let html = "<a href='https://www.google.com/x'>1</a><a href='/y'>2</a>\
                <a href='https://www.google.com/url?q=https%3A%2F%2Fa.test&amp;z=1'>3</a>";
    assert_eq!(
        external_href_from_google_html(html).as_deref(),
        Some("https://a.test")
    );
    assert_eq!(external_href_from_google_html("<a href='https://b.test/?x&y'>"), Some("https://b.test/?x&y".to_owned()));
    assert_eq!(try_external_href_from_google_html("no links"), Some(None));
}

#[test]
fn links_are_described() {
    let title = "Brand in der Rigaer Straße";
    let text = "Brand in der Rigaer Straße";
    let (link, note) = describe_link("https://a.test/ticker", "https://a.test/1".to_owned(), text, title);
    assert_eq!(link, "https://a.test/1");
    assert_eq!(note.as_deref(), Some("rolling source link"));
    let (link, note) = describe_link("https://a.test/1", "  ".to_owned(), "", title);
    assert_eq!(link, "https://a.test/1");
    assert_eq!(note, None);
    let html = "<meta property='og:url' content='https://b.test/2'>";
    assert_eq!(
        try_resolve_article_link("https://a.test/1", html, text, title),
        Some((Some("https://b.test/2".to_owned()), None))
    );
    let relative = "<link rel='canonical' href='/2'>";
    assert_eq!(
        resolve_article_link("https://a.test/1", relative, text, title),
        (Some("https://a.test/1".to_owned()), None)
    );
}

#[test]
fn pages_are_read_for_their_items() {
    let html = "<html><link rel='canonical' href='https://a.test/1'><nav>menu</nav><p>Brand in der Rigaer Straße</p></html>";
    let article = read_article("https://a.test/feed", html, "Brand in der Rigaer Straße").expect("an article");
    assert_eq!(article.text, "Brand in der Rigaer Straße");
    assert_eq!(article.resolved_link.as_deref(), Some("https://a.test/1"));
    assert_eq!(article.link_note, None);
    assert!(read_article("https://a.test", "<nav>x</nav>", "T").is_none());
    assert!(read_article("https://a.test", "İİİ<navä>x</nav>", "T").is_none());
}

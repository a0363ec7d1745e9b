use radar_bot::html::{decode_entities, html_escape, strip_html, text_to_plain};
use radar_bot::json::{parse_json, Json};
use radar_bot::text::{
    index_from, is_blank, replace_of, split_of, trim_str, whitespace, words_of,
};
use radar_bot::url::{
    decode_url_parameter, has_http_scheme, looks_like_google_url, looks_like_rolling_url,
    percent_decode, url_encode,
};
use radar_bot::words::{
    contains_any_normalized, first_relevant_article_text, normalize, significant_words,
    text_matches_title, title_overlap,
};

fn chars(s: &str) -> Vec<char> {
    s.chars().collect()
}

fn strings(v: Vec<Vec<char>>) -> Vec<String> {
    v.into_iter().map(|w| w.into_iter().collect()).collect()
}

const SAMPLES: [&str; 9] = [
    "",
    " ",
    "plain",
    "  two  words ",
    "\tTab\u{a0}und\u{2003}Umlaut äöüß\n",
    "a,b,,c,",
    "&&amp;<tag>",
    "𝔘𝔫𝔦𝔠𝔬𝔡𝔢 straße",
    "\u{1c}\u{1d}\u{85}x\u{feff}",
];

#[test]
fn whitespace_is_what_unicode_says() {
    for n in 0..=0x10ffff_u32 {
        if let Some(c) = char::from_u32(n) {
            assert_eq!(whitespace(c), c.is_whitespace(), "{:x}", n);
        }
    }
}

#[test]
fn texts_are_taken_apart_as_std_does() {
    for s in SAMPLES {
        assert_eq!(trim_str(s), s.trim());
        assert_eq!(is_blank(s), s.trim().is_empty());
        let words: Vec<&str> = s.split_whitespace().collect();
        assert_eq!(strings(words_of(&chars(s))), words);
        let parts: Vec<&str> = s.split(',').collect();
        assert_eq!(strings(split_of(&chars(s), ',')), parts);
        let replaced: String = replace_of(&chars(s), "a", "aa").into_iter().collect();
        assert_eq!(replaced, s.replace('a', "aa"));
    }
    assert_eq!(index_from(&chars("abcabc"), &chars("bc"), 2), Some(4));
    assert_eq!(index_from(&chars("abcabc"), &chars("bd"), 0), None);
}

#[test]
fn markup_is_escaped_and_decoded() {
    assert_eq!(html_escape("<a href=\"x\">&</a>"), "&lt;a href=&quot;x&quot;&gt;&amp;&lt;/a&gt;");
    for s in SAMPLES {
        assert_eq!(decode_entities(&html_escape(s)), s);
        let escaped = html_escape(s);
        assert!(!escaped.contains('<') && !escaped.contains('>') && !escaped.contains('"'));
    }
}

#[test]
fn entities_are_decoded() {
    assert_eq!(decode_entities("&#228;&#xE4;&#XE4;&auml;"), "ääää");
    assert_eq!(decode_entities("a&shy;b&nbsp;c&hellip;"), "ab c…");
    assert_eq!(decode_entities("&bogus; & &#xD800; &#99999999999;"), "&bogus; & &#xD800; &#99999999999;");
    assert_eq!(decode_entities("&amp;lt;"), "&lt;");
    assert_eq!(decode_entities("&ldquo;&rdquo;&lsquo;&rsquo;&laquo;&raquo;"), "“”‘’«»");
    assert_eq!(decode_entities("&euro;&trade;&middot;"), "€™·");
    assert_eq!(decode_entities("open &end"), "open &end");
    assert_eq!(decode_entities("&#+65;"), "A");
}

#[test]
fn tags_are_stripped() {
    assert_eq!(strip_html("<p>Hello <b>world</b></p>\n &amp; more"), "Hello world & more");
    assert_eq!(strip_html("1 < 2 and 3 > 2"), "1 2");
    assert_eq!(text_to_plain(" <i> x </i> "), "x");
}

#[test]
fn addresses_are_encoded() {
    assert_eq!(url_encode("Straße 1/2 ~a_b-c."), "Stra%C3%9Fe+1%2F2+~a_b-c.");
    assert_eq!(percent_decode("Stra%C3%9Fe%20%"), "Straße %");
    assert_eq!(percent_decode("%zz%4"), "%zz%4");
    assert_eq!(percent_decode("%41%42"), "AB");
    assert_eq!(percent_decode("%+4x"), "\u{4}x");
    assert_eq!(percent_decode("%41%42x"), "ABx");
    assert_eq!(percent_decode("a%FFb"), "a\u{fffd}b");
}

#[test]
fn parameters_hold_addresses() {
    assert_eq!(
        decode_url_parameter("https://g/url?x=1&URL=https%3A%2F%2Fa.test%2Fb+c&q=2", &["url", "q"])
            .as_deref(),
        Some("https://a.test/b c")
    );
    assert_eq!(decode_url_parameter("https://g/url?q=ftp%3A%2F%2Fa", &["q"]), None);
    assert_eq!(decode_url_parameter("https://g/url?broken&q=http%3A%2F%2Fa", &["q"]), None);
    assert_eq!(decode_url_parameter("https://g/", &["q"]), None);
    for s in SAMPLES {
        let address = format!("https://{}", s);
        let url = format!("https://g/url?url={}&z=1", url_encode(&address));
        assert_eq!(
            decode_url_parameter(&url, &["url"]).as_deref(),
            Some(address.as_str())
        );
    }
}

#[test]
fn addresses_are_recognised() {
    assert!(has_http_scheme("http://a"));
    assert!(!has_http_scheme("HTTP://a"));
    assert!(looks_like_google_url("https://NEWS.google.com/x"));
    assert!(looks_like_google_url("https://www.google.de/url"));
    assert!(!looks_like_google_url("https://maps.google.com/"));
    assert!(looks_like_rolling_url("https://a.test/LiveBlog/1"));
    assert!(!looks_like_rolling_url("https://a.test/news/1"));
}

#[test]
fn spelling_is_folded() {
    assert_eq!(normalize("Rigaer STRASSE"), "rigaer str");
    assert_eq!(normalize("Rigaer Straße"), "rigaer str");
    assert_eq!(normalize("Rigaer Str. 5"), "rigaer str 5");
    assert_eq!(normalize("Fußgänger"), "fussgänger");
    for spelling in ["Examplestr.", "Examplestrasse", "Examplestraße"] {
        assert_eq!(normalize(spelling), "examplestr");
    }
    assert!(contains_any_normalized("Großbrand!", &["xyz", "BRAND"]));
    assert!(!contains_any_normalized("Ruhe", &["brand"]));
}

#[test]
fn titles_are_compared_by_words() {
    assert_eq!(
        significant_words("Polizei: Brand, in der (Rigaer) Straße heute Großeinsatz"),
        vec!["brand", "rigaer", "grosseinsatz"]
    );
    assert!(text_matches_title("ganz egal", "Kurz"));
    assert!(text_matches_title("ein Brand in der Rigaer Straße", "Brand in der Rigaer Straße"));
    assert!(!text_matches_title("Wetter morgen", "Brand in der Rigaer Straße"));
    assert_eq!(
        title_overlap("Brand in der Rigaer Straße", "Feuerwehreinsatz Rigaer Straße nach Brand"),
        2
    );
    assert_eq!(title_overlap("Brand Brand Brand", "Brand"), 1);
    assert_eq!(
        title_overlap("Feuerwehreinsatz Rigaer Straße nach Brand", "Brand in der Rigaer Straße"),
        2
    );
    let long = "erstes zweites drittes viertes fünftes sechstes siebtes achtes neuntes erstes";
    assert_eq!(title_overlap(long, long), 8);
    assert_eq!(title_overlap("Brand Brand Rigaer", "Brand Brand Rigaer"), 2);
}

#[test]
fn articles_end_at_the_imprint() {
    assert_eq!(first_relevant_article_text(Some("Text. IMPRESSUM mehr")), "Text. ");
    assert_eq!(first_relevant_article_text(Some("Text ohne Ende")), "Text ohne Ende");
    assert_eq!(first_relevant_article_text(None), "");
    assert_eq!(
        first_relevant_article_text(Some("a Newsletter b Kontakt c")),
        "a "
    );
}

#[test]
fn documents_are_read() {
    let j = parse_json(r#"{"a": [1, 2.5, "x", null, true], "b": {"c": -7}, "a2": 18446744073709551615}"#)
        .expect("a document");
    let a = j.items_of("a").expect("a list");
    assert_eq!(a.len(), 5);
    assert_eq!(a[2].as_text(), Some("x"));
    match &a[1] {
        Json::Number(n) => {
            assert_eq!(n.whole, None);
            assert_eq!(n.real.map(|r| f64::from_bits(r.bits)), Some(2.5));
            assert_eq!(n.text, "2.5");
        }
        _ => panic!("no number"),
    }
    assert_eq!(j.get("b").and_then(|b| b.whole_of("c")), Some(-7));
    assert_eq!(j.whole_of("a2"), None);
    assert_eq!(
        j.real_of("a2").map(|r| f64::from_bits(r.bits)),
        Some(18446744073709551615.0)
    );
    assert!(j.get("missing").is_none());
    assert!(a[0].get("x").is_none());
    assert_eq!(j.get("a").and_then(|l| l.at(2)).and_then(|x| x.as_text()), Some("x"));
    assert!(parse_json("{").is_none());
}

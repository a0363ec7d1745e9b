//! Feeds: from their entries to news items.

use vstd::prelude::*;

use crate::html::{stripped, text_to_plain};
use crate::item::{items_view, FeedItem, Item};
use crate::readable::{can_be_read, is_readable};
use crate::text::{
    append_str, chars_of, copy_range, is_blank, starts_with, str_same, string_of, trim_str,
    trimmed,
};
use crate::words::at_most;

verus! {

// ---------------------------------------------------------------------------
// Entries
// ---------------------------------------------------------------------------

/// A link of an entry.
pub struct FeedLink {
    /// Where it leads.
    pub href: String,
    /// How what is there is related to the entry.
    pub rel: Option<String>,
}

/// An entry of a feed.
pub struct FeedEntry {
    /// What the entry is recognised by.
    pub id: String,
    /// The headline.
    pub title: Option<String>,
    /// A summary.
    pub summary: Option<String>,
    /// The full text.
    pub body: Option<String>,
    /// Its links.
    pub links: Vec<FeedLink>,
    /// When it was published, in seconds since 1970.
    pub published: Option<i64>,
    /// When it was last changed, in seconds since 1970.
    pub updated: Option<i64>,
}

/// What an entry says, in contracts.
#[verifier::ext_equal]
pub struct RawEntry {
    /// What the entry is recognised by.
    pub id: Seq<char>,
    /// The headline.
    pub title: Option<Seq<char>>,
    /// A summary.
    pub summary: Option<Seq<char>>,
    /// The full text.
    pub body: Option<Seq<char>>,
    /// Its links: where they lead, and how what is there is related to it.
    pub links: Seq<(Seq<char>, Option<Seq<char>>)>,
    /// When it was published, in seconds since 1970.
    pub published: Option<i64>,
    /// When it was last changed, in seconds since 1970.
    pub updated: Option<i64>,
}

/// What links say.
pub open spec fn links_view(s: Seq<FeedLink>) -> Seq<(Seq<char>, Option<Seq<char>>)> {
    s.map_values(|l: FeedLink| (l.href@, l.rel.deep_view()))
}

impl View for FeedEntry {
    type V = RawEntry;

    open spec fn view(&self) -> RawEntry {
        RawEntry {
            id: self.id@,
            title: self.title.deep_view(),
            summary: self.summary.deep_view(),
            body: self.body.deep_view(),
            links: links_view(self.links@),
            published: self.published,
            updated: self.updated,
        }
    }
}

/// What entries say.
pub open spec fn raw_entries(s: Seq<FeedEntry>) -> Seq<RawEntry> {
    s.map_values(|e: FeedEntry| e@)
}

// ---------------------------------------------------------------------------
// Items
// ---------------------------------------------------------------------------

/// The plain text of a piece of HTML, if there is any.
pub open spec fn plain_text(html: Option<Seq<char>>) -> Option<Seq<char>> {
    match html {
        Some(h) => {
            let t = trimmed(stripped(h));
            if t.len() == 0 {
                None
            } else {
                Some(t)
            }
        },
        None => None,
    }
}

/// The start of a text that may be missing: its first 120 characters.
pub open spec fn start_of(text: Option<Seq<char>>) -> Option<Seq<char>> {
    match text {
        Some(t) => Some(at_most(t, 120)),
        None => None,
    }
}

/// The first that is not missing.
pub open spec fn first_of(a: Option<Seq<char>>, b: Option<Seq<char>>) -> Option<Seq<char>> {
    if a is Some {
        a
    } else {
        b
    }
}

/// The headline of an item: that of the entry, or else the start of its summary
/// or of its text.
pub open spec fn headline(e: RawEntry) -> Option<Seq<char>> {
    first_of(
        plain_text(e.title),
        first_of(start_of(plain_text(e.summary)), start_of(plain_text(e.body))),
    )
}

/// The first of the links, from `from` on, that leads to the entry itself.
pub open spec fn own_link(links: Seq<(Seq<char>, Option<Seq<char>>)>, from: int) -> Option<int>
    decreases links.len() - from,
{
    if from < 0 || from >= links.len() {
        None
    } else if links[from].1 is None || links[from].1 == Some("alternate"@) {
        Some(from)
    } else {
        own_link(links, from + 1)
    }
}

/// The link of an entry: the first that leads to the entry itself, or else the
/// first one, if it is not blank.
pub open spec fn preferred_link(links: Seq<(Seq<char>, Option<Seq<char>>)>) -> Option<Seq<char>> {
    if links.len() == 0 {
        None
    } else {
        let i = match own_link(links, 0) {
            Some(i) => i,
            None => 0,
        };
        let href = trimmed(links[i].0);
        if href.len() == 0 {
            None
        } else {
            Some(href)
        }
    }
}

/// What an item is recognised by: the id of the entry, or else its link, or else
/// the source and the headline.
pub open spec fn item_guid(
    id: Seq<char>,
    link: Option<Seq<char>>,
    source_name: Seq<char>,
    title: Seq<char>,
) -> Seq<char> {
    if trimmed(id).len() > 0 {
        id
    } else {
        match link {
            Some(l) => l,
            None => source_name + "::"@ + title,
        }
    }
}

/// The item for an entry; none where it has no headline.
pub open spec fn item_for(e: RawEntry, source_name: Seq<char>) -> Option<Item> {
    match headline(e) {
        None => None,
        Some(title) => {
            let link = preferred_link(e.links);
            Some(
                Item {
                    guid: item_guid(e.id, link, source_name, title),
                    title,
                    link,
                    link_note: None,
                    description: first_of(plain_text(e.summary), plain_text(e.body)),
                    article_text: None,
                    source_name,
                    score: 0,
                    max_score: 0,
                    distance_meters: None,
                    location_label: None,
                    published_at: if e.published is Some {
                        e.published
                    } else {
                        e.updated
                    },
                },
            )
        },
    }
}

/// The items for entries.
pub open spec fn items_for(es: Seq<RawEntry>, source_name: Seq<char>) -> Seq<Item>
    decreases es.len(),
{
    if es.len() == 0 {
        seq![]
    } else {
        let before = items_for(es.drop_last(), source_name);
        match item_for(es.last(), source_name) {
            Some(i) => before.push(i),
            None => before,
        }
    }
}

fn plain_of(html: &Option<String>) -> (r: Option<String>)
    ensures
        r.deep_view() == plain_text(html.deep_view()),
{
    match html {
        Some(h) => {
            let t = text_to_plain(h.as_str());
            if t.as_str().is_empty() {
                None
            } else {
                Some(t)
            }
        },
        None => None,
    }
}

/// The first characters of a text, at most `n`.
pub(crate) fn first_chars(s: &str, n: usize) -> (r: String)
    ensures
        r@ == at_most(s@, n as int),
{
    let c = chars_of(s);
    if c.len() <= n {
        return s.to_owned();
    }
    let head = copy_range(c.as_slice(), 0, n);
    assert(head@ == s@.take(n as int));
    string_of(head.as_slice())
}

fn start_of_text(text: Option<String>) -> (r: Option<String>)
    ensures
        r.deep_view() == start_of(text.deep_view()),
{
    match text {
        Some(t) => Some(first_chars(t.as_str(), 120)),
        None => None,
    }
}

fn headline_of(entry: &FeedEntry) -> (r: Option<String>)
    ensures
        r.deep_view() == headline(entry@),
{
    let title = plain_of(&entry.title);
    if title.is_some() {
        return title;
    }
    let summary = start_of_text(plain_of(&entry.summary));
    if summary.is_some() {
        return summary;
    }
    start_of_text(plain_of(&entry.body))
}

fn own_link_of(links: &Vec<FeedLink>) -> (r: Option<usize>)
    ensures
        match r {
            Some(i) => own_link(links_view(links@), 0) == Some(i as int) && i < links@.len(),
            None => own_link(links_view(links@), 0) is None,
        },
{
    let ghost all = links_view(links@);
    let n: usize = links.len();
    let mut i: usize = 0;
    while i < n
        invariant
            0 <= i <= n,
            n == links@.len(),
            all == links_view(links@),
            own_link(all, 0) == own_link(all, i as int),
        decreases n - i,
    {
        assert(all[i as int] == (links@[i as int].href@, links@[i as int].rel.deep_view()));
        let own = match &links[i].rel {
            Some(rel) => str_same(rel.as_str(), "alternate"),
            None => true,
        };
        if own {
            return Some(i);
        }
        i += 1;
    }
    None
}

/// The link of an entry: the first that leads to the entry itself, or else the
/// first one, if it is not blank.
pub fn preferred_entry_link(entry: &FeedEntry) -> (r: Option<String>)
    ensures
        r.deep_view() == preferred_link(entry@.links),
{
    let links = &entry.links;
    let ghost all = links_view(links@);
    let n: usize = links.len();
    if n == 0 {
        return None;
    }
    let best: usize = match own_link_of(links) {
        Some(i) => i,
        None => 0,
    };
    assert(all[best as int] == (links@[best as int].href@, links@[best as int].rel.deep_view()));
    let href = trim_str(links[best].href.as_str());
    if href.as_str().is_empty() {
        None
    } else {
        Some(href)
    }
}

/// The item for an entry; `None` where it has no headline.
pub fn normalize_feed_entry(entry: FeedEntry, source_name: &str) -> (r: Option<FeedItem>)
    ensures
        match r {
            Some(i) => item_for(entry@, source_name@) == Some(i@),
            None => item_for(entry@, source_name@) is None,
        },
{
    let title = match headline_of(&entry) {
        Some(t) => t,
        None => {
            return None;
        },
    };
    let link = preferred_entry_link(&entry);
    let summary = plain_of(&entry.summary);
    let description = if summary.is_some() {
        summary
    } else {
        plain_of(&entry.body)
    };
    let guid = if !is_blank(entry.id.as_str()) {
        entry.id
    } else {
        match &link {
            Some(l) => l.clone(),
            None => {
                let mut out: Vec<char> = Vec::new();
                append_str(&mut out, source_name);
                append_str(&mut out, "::");
                append_str(&mut out, title.as_str());
                assert(out@ =~= source_name@ + "::"@ + title@);
                string_of(out.as_slice())
            },
        }
    };
    let published_at = match entry.published {
        Some(t) => Some(t),
        None => entry.updated,
    };
    Some(
        FeedItem {
            guid,
            title,
            link,
            link_note: None,
            description,
            article_text: None,
            source_name: source_name.to_owned(),
            score: 0,
            max_score: 0,
            distance_meters: None,
            location_label: None,
            published_at,
        },
    )
}

/// The items for entries.
pub fn feed_items(entries: Vec<FeedEntry>, source_name: &str) -> (r: Vec<FeedItem>)
    ensures
        items_view(r@) == items_for(raw_entries(entries@), source_name@),
{
    let ghost all = entries@;
    let mut rest = entries;
    let mut out: Vec<FeedItem> = Vec::new();
    let ghost mut n: int = 0;
    assert(raw_entries(all.take(0)) == Seq::<RawEntry>::empty());
    assert(items_view(out@) == Seq::<Item>::empty());
    assert(all.skip(0) == all);
    while rest.len() > 0
        invariant
            0 <= n <= all.len(),
            rest@ == all.skip(n),
            items_view(out@) == items_for(raw_entries(all.take(n)), source_name@),
        decreases rest@.len(),
    {
        let ghost before = out@;
        let entry = rest.remove(0);
        proof {
            assert(entry == all[n]);
            let t = raw_entries(all.take(n + 1));
            assert(t.drop_last() == raw_entries(all.take(n)));
            assert(t.last() == entry@);
        }
        if let Some(item) = normalize_feed_entry(entry, source_name) {
            out.push(item);
            assert(items_view(out@) == items_view(before).push(item@));
        }
        proof {
            n = n + 1;
        }
    }
    assert(all.take(n) == all);
    out
}

// ---------------------------------------------------------------------------
// Reading
// ---------------------------------------------------------------------------

/// What the parser of feeds makes of an entry.
#[verifier::ext_equal]
pub struct KnownEntry {
    /// What the entry is recognised by, unless it was drawn by chance.
    pub id: Option<Seq<char>>,
    /// The entry, with an empty id.
    pub rest: RawEntry,
}

/// Whether an entry is what the parser of feeds makes of it. Its id can be any only
/// where it was drawn by chance, and that happens only to an entry without links.
pub open spec fn is_entry(known: KnownEntry, e: RawEntry) -> bool {
    &&& known.rest == (RawEntry { id: seq![], ..e })
    &&& match known.id {
        Some(id) => e.id == id,
        None => e.links.len() == 0,
    }
}

/// Whether entries are what the parser of feeds makes of them.
pub open spec fn are_entries(known: Seq<KnownEntry>, es: Seq<RawEntry>) -> bool {
    &&& known.len() == es.len()
    &&& forall|i: int| 0 <= i < es.len() ==> is_entry(#[trigger] known[i], es[i])
}

/// The entries that `feed-rs` reads from a text; none where the text is no feed. The id
/// of an entry is missing where the text gives neither an id nor a link for it.
pub uninterp spec fn feed_in(text: Seq<char>) -> Option<Seq<KnownEntry>>;

/// `feed_rs::parser::parse`: whether the text is a feed, and what its entries say,
/// depends on the text alone and is called [`feed_in`]. An entry without an id gets one
/// made from its first link and its title; where it has no link either, its id is drawn
/// by chance, and nothing is claimed of it.
///
/// The parser panics where more elements are open than it counts in 16 bits, where some
/// are nested too deep for the stack, and where a play time does not fit into 64 bits or
/// has digits other than 0 to 9; so the text must be within these limits.
#[verifier::external_body]
fn read_feed(text: &str) -> (r: Option<Vec<FeedEntry>>)
    requires
        is_readable(text@),
    ensures
        match r {
            Some(es) => feed_in(text@) is Some && are_entries(
                feed_in(text@)->0,
                raw_entries(es@),
            ),
            None => feed_in(text@) is None,
        },
{
    let feed = feed_rs::parser::parse(text.as_bytes()).ok()?;
    Some(feed.entries.into_iter().map(|e| FeedEntry {
        id: e.id,
        title: e.title.map(|t| t.content),
        summary: e.summary.map(|t| t.content),
        body: e.content.and_then(|c| c.body),
        links: e.links.into_iter().map(|l| FeedLink { href: l.href, rel: l.rel }).collect(),
        published: e.published.map(|t| t.timestamp()),
        updated: e.updated.map(|t| t.timestamp()),
    }).collect())
}

/// Whether entries are those of a feed, whatever ids were drawn by chance. There are none
/// where the text is no feed, or not within the limits of the parser.
pub open spec fn is_feed(text: Seq<char>, es: Seq<RawEntry>) -> bool {
    match feed_in(text) {
        Some(known) if is_readable(text) => are_entries(known, es),
        _ => es.len() == 0,
    }
}

/// The items of a feed; none where the text is no feed, or not within the limits of the
/// parser.
pub fn parse_feed(xml: &str, source_name: &str) -> (r: Vec<FeedItem>)
    ensures
        exists|es: Seq<RawEntry>| #[trigger]
            is_feed(xml@, es) && items_view(r@) == items_for(es, source_name@),
{
    if can_be_read(xml) {
        if let Some(entries) = read_feed(xml) {
            let ghost es = raw_entries(entries@);
            let out = feed_items(entries, source_name);
            assert(is_feed(xml@, es) && items_view(out@) == items_for(es, source_name@));
            return out;
        }
    }
    let out: Vec<FeedItem> = Vec::new();
    let ghost es = Seq::<RawEntry>::empty();
    assert(items_view(out@) == Seq::<Item>::empty());
    assert(is_feed(xml@, es) && items_view(out@) == items_for(es, source_name@));
    out
}

// ---------------------------------------------------------------------------
// Laws
// ---------------------------------------------------------------------------

/// Every item of a feed has a headline and carries the name of its source.
pub proof fn law_items_have_headlines(es: Seq<RawEntry>, source_name: Seq<char>)
    ensures
        items_for(es, source_name).len() <= es.len(),
        forall|i: int|
            0 <= i < items_for(es, source_name).len() ==> {
                let item = #[trigger] items_for(es, source_name)[i];
                item.title.len() > 0 && item.source_name == source_name
            },
    decreases es.len(),
{
    if es.len() > 0 {
        law_items_have_headlines(es.drop_last(), source_name);
    }
}

/// An entry with an id or a link gives the same item, with the same id, each time its
/// feed is read: chance has no part in it.
pub proof fn law_linked_entries_are_recognised(
    known: KnownEntry,
    a: RawEntry,
    b: RawEntry,
    source_name: Seq<char>,
)
    requires
        is_entry(known, a),
        is_entry(known, b),
        known.id is Some || a.links.len() > 0,
    ensures
        item_for(a, source_name) == item_for(b, source_name),
{
    let x = RawEntry { id: seq![], ..a };
    let y = RawEntry { id: seq![], ..b };
    assert(x == y);
    assert(a == RawEntry { id: a.id, ..x });
    assert(b == RawEntry { id: b.id, ..y });
}

/// A feed gives the same items each time it is read, as long as no id in it is drawn by
/// chance.
pub proof fn law_feeds_are_read_alike(
    text: Seq<char>,
    a: Seq<RawEntry>,
    b: Seq<RawEntry>,
    source_name: Seq<char>,
)
    requires
        is_feed(text, a),
        is_feed(text, b),
        forall|i: int| 0 <= i < a.len() ==> (#[trigger] a[i]).links.len() > 0,
    ensures
        items_for(a, source_name) == items_for(b, source_name),
{
    assert(a.len() == b.len());
    assert forall|i: int| 0 <= i < a.len() implies a[i] == b[i] by {
        let known = (feed_in(text)->0)[i];
        assert(is_entry(known, a[i]));
        assert(is_entry(known, b[i]));
        let x = RawEntry { id: seq![], ..a[i] };
        let y = RawEntry { id: seq![], ..b[i] };
        assert(x == y);
        assert(a[i] == RawEntry { id: a[i].id, ..x });
        assert(b[i] == RawEntry { id: b[i].id, ..y });
    }
    assert(a == b);
}

/// The items of two parts of a feed make those of the whole, in their order, and an entry
/// gives one item exactly if its title, summary or text is more than white space.
pub proof fn law_every_entry_counts(
    a: Seq<RawEntry>,
    b: Seq<RawEntry>,
    e: RawEntry,
    source_name: Seq<char>,
)
    ensures
        items_for(a + b, source_name) == items_for(a, source_name) + items_for(b, source_name),
        items_for(seq![e], source_name).len() == (if has_text(e.title) || has_text(e.summary)
            || has_text(e.body) {
            1int
        } else {
            0
        }),
        item_for(e, source_name) matches Some(item) ==> items_for(seq![e], source_name) == seq![item],
    decreases b.len(),
{
    let none = Seq::<RawEntry>::empty();
    assert(seq![e].drop_last() == none);
    assert(items_for(none, source_name) == Seq::<Item>::empty());
    if b.len() == 0 {
        assert(a + b == a);
        assert(items_for(a, source_name) + items_for(b, source_name) == items_for(a, source_name));
    } else {
        law_every_entry_counts(a, b.drop_last(), e, source_name);
        assert((a + b).drop_last() == a + b.drop_last());
        assert((a + b).last() == b.last());
        let x = items_for(a, source_name);
        let y = items_for(b.drop_last(), source_name);
        if let Some(item) = item_for(b.last(), source_name) {
            assert((x + y).push(item) == x + y.push(item));
        }
    }
}

/// Whether a piece of HTML is there and has more than white space in it.
pub open spec fn has_text(html: Option<Seq<char>>) -> bool {
    html matches Some(h) && trimmed(stripped(h)).len() > 0
}

/// Whether a headline is the start of a text: all of it, or its first 120 characters.
pub open spec fn is_start_of(title: Seq<char>, html: Option<Seq<char>>) -> bool {
    html matches Some(h) && title.len() <= 120 && starts_with(trimmed(stripped(h)), title) && (
    title.len() < 120 ==> title == trimmed(stripped(h)))
}

/// An item says what its entry says: the headline is the plain text of the title or, without
/// one, the start of the summary or of the text; the description is the plain text of the
/// summary or, without one, of the text; and it is dated by when it was published or, where
/// that is not known, changed.
pub proof fn law_items_say_what_entries_say(e: RawEntry, source_name: Seq<char>)
    ensures
        item_for(e, source_name) matches Some(item) ==> {
            &&& has_text(e.title) ==> item.title == trimmed(stripped(e.title->0))
            &&& !has_text(e.title) && has_text(e.summary) ==> is_start_of(item.title, e.summary)
            &&& !has_text(e.title) && !has_text(e.summary) ==> is_start_of(item.title, e.body)
            &&& has_text(e.summary) ==> item.description == Some(trimmed(stripped(e.summary->0)))
            &&& !has_text(e.summary) && has_text(e.body) ==> item.description == Some(
                trimmed(stripped(e.body->0)),
            )
            &&& !has_text(e.summary) && !has_text(e.body) ==> item.description is None
            &&& e.published is Some ==> item.published_at == e.published
            &&& e.published is None ==> item.published_at == e.updated
            &&& item.source_name == source_name
            &&& item.article_text is None && item.link_note is None
            &&& item.distance_meters is None && item.location_label is None && item.score == 0
        },
{
    if let Some(item) = item_for(e, source_name) {
        if !has_text(e.title) {
            let h = if has_text(e.summary) {
                e.summary->0
            } else {
                e.body->0
            };
            let t = trimmed(stripped(h));
            assert(item.title == at_most(t, 120));
            assert(t.subrange(0, item.title.len() as int) == item.title);
        }
    }
}

/// Whether a link leads to the entry itself.
pub open spec fn is_own(link: (Seq<char>, Option<Seq<char>>)) -> bool {
    link.1 is None || link.1 == Some("alternate"@)
}

proof fn lemma_own_link(links: Seq<(Seq<char>, Option<Seq<char>>)>, from: int)
    requires
        0 <= from,
    ensures
        match own_link(links, from) {
            Some(i) => from <= i < links.len() && is_own(links[i]) && forall|j: int|
                from <= j < i ==> !is_own(#[trigger] links[j]),
            None => forall|j: int| from <= j < links.len() ==> !is_own(#[trigger] links[j]),
        },
    decreases links.len() - from,
{
    if from < links.len() && !is_own(links[from]) {
        lemma_own_link(links, from + 1);
    }
}

/// The link of an item is that of the first link of its entry which leads to the entry itself
/// or, where none does, of the first one; none where that is blank.
pub proof fn law_links_lead_to_the_entry(e: RawEntry, source_name: Seq<char>, i: int)
    requires
        0 <= i < e.links.len(),
        forall|j: int| 0 <= j < i ==> !is_own(#[trigger] e.links[j]),
        is_own(e.links[i]) || (i == 0 && forall|j: int|
            0 <= j < e.links.len() ==> !is_own(#[trigger] e.links[j])),
    ensures
        item_for(e, source_name) matches Some(item) ==> (if trimmed(e.links[i].0).len() > 0 {
            item.link == Some(trimmed(e.links[i].0))
        } else {
            item.link is None
        }),
{
    lemma_own_link(e.links, 0);
    if let Some(k) = own_link(e.links, 0) {
        if k < i {
            assert(!is_own(e.links[k]));
        } else if i < k {
            assert(!is_own(e.links[i]));
            assert(!is_own(e.links[k]));
        }
    } else {
        assert(!is_own(e.links[i]));
    }
}

/// An item is recognised by the id of its entry; where that is blank, by its link; and without
/// a link by its source and its headline. It has no link where its entry has none.
pub proof fn law_items_are_recognised(e: RawEntry, source_name: Seq<char>)
    ensures
        item_for(e, source_name) matches Some(item) ==> {
            &&& trimmed(e.id).len() > 0 ==> item.guid == e.id
            &&& trimmed(e.id).len() == 0 && item.link is Some ==> item.guid == item.link->0
            &&& trimmed(e.id).len() == 0 && item.link is None ==> item.guid == source_name + "::"@
                + item.title
            &&& e.links.len() == 0 ==> item.link is None
        },
{
}

} // verus!

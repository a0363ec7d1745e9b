//! News items on their way from a feed to a digest.

use vstd::prelude::*;

use crate::ieee::Real;

verus! {

/// An item of a feed or a search.
pub struct FeedItem {
    /// What the item is recognised by.
    pub guid: String,
    /// The headline.
    pub title: String,
    /// Where the item is.
    pub link: Option<String>,
    /// What is to be said of the link, such as that the page behind it changes.
    pub link_note: Option<String>,
    /// A short text from the feed.
    pub description: Option<String>,
    /// The full text, which is filtered and searched for streets.
    pub article_text: Option<String>,
    /// The name of the source.
    pub source_name: String,
    /// How relevant the item is.
    pub score: i32,
    /// The highest score that an item can have.
    pub max_score: i32,
    /// How far from the reference point it happened, in metres.
    pub distance_meters: Option<Real>,
    /// The place that the distance is that of.
    pub location_label: Option<String>,
    /// When the item was published, in seconds since 1970.
    pub published_at: Option<i64>,
}

/// A stored item, as far as a digest needs it.
pub struct DbItem {
    /// What the item is recognised by.
    pub guid: String,
    /// The name of the source.
    pub source_name: String,
    /// The headline.
    pub title: String,
    /// Where the item is.
    pub link: Option<String>,
    /// What is to be said of the link.
    pub link_note: Option<String>,
    /// How relevant the item is.
    pub score: i32,
    /// The highest score that an item can have.
    pub max_score: i32,
    /// How far from the reference point it happened, in metres.
    pub distance_meters: Option<Real>,
    /// The place that the distance is that of.
    pub location_label: Option<String>,
}

/// An entry of a digest: one incident, from one or more items.
pub struct DigestItem {
    /// The items that it is made of.
    pub guids: Vec<String>,
    /// The names of the sources.
    pub source_name: String,
    /// How many sources there are.
    pub source_count: usize,
    /// The headline.
    pub title: String,
    /// Where the item is.
    pub link: Option<String>,
    /// What is to be said of the link.
    pub link_note: Option<String>,
    /// How relevant the incident is.
    pub score: i32,
    /// The highest score that an incident can have.
    pub max_score: i32,
    /// How far from the reference point it happened, in metres.
    pub distance_meters: Option<Real>,
    /// The place that the distance is that of.
    pub location_label: Option<String>,
}

/// What an item says, in contracts.
#[verifier::ext_equal]
pub struct Item {
    /// What the item is recognised by.
    pub guid: Seq<char>,
    /// The headline.
    pub title: Seq<char>,
    /// Where the item is.
    pub link: Option<Seq<char>>,
    /// What is to be said of the link.
    pub link_note: Option<Seq<char>>,
    /// A short text from the feed.
    pub description: Option<Seq<char>>,
    /// The full text.
    pub article_text: Option<Seq<char>>,
    /// The name of the source.
    pub source_name: Seq<char>,
    /// How relevant the item is.
    pub score: int,
    /// The highest score that an item can have.
    pub max_score: int,
    /// How far from the reference point it happened, in metres.
    pub distance_meters: Option<Real>,
    /// The place that the distance is that of.
    pub location_label: Option<Seq<char>>,
    /// When the item was published, in seconds since 1970.
    pub published_at: Option<i64>,
}

impl View for FeedItem {
    type V = Item;

    open spec fn view(&self) -> Item {
        Item {
            guid: self.guid@,
            title: self.title@,
            link: self.link.deep_view(),
            link_note: self.link_note.deep_view(),
            description: self.description.deep_view(),
            article_text: self.article_text.deep_view(),
            source_name: self.source_name@,
            score: self.score as int,
            max_score: self.max_score as int,
            distance_meters: self.distance_meters,
            location_label: self.location_label.deep_view(),
            published_at: self.published_at,
        }
    }
}

/// What items say.
pub open spec fn items_view(s: Seq<FeedItem>) -> Seq<Item> {
    s.map_values(|i: FeedItem| i@)
}

/// What an entry of a digest says, in contracts.
#[verifier::ext_equal]
pub struct Entry {
    /// The items that it is made of.
    pub guids: Seq<Seq<char>>,
    /// The names of the sources.
    pub source_name: Seq<char>,
    /// How many sources there are.
    pub source_count: int,
    /// The headline.
    pub title: Seq<char>,
    /// Where the item is.
    pub link: Option<Seq<char>>,
    /// What is to be said of the link.
    pub link_note: Option<Seq<char>>,
    /// How relevant the incident is.
    pub score: int,
    /// The highest score that an incident can have.
    pub max_score: int,
    /// How far from the reference point it happened, in metres.
    pub distance_meters: Option<Real>,
    /// The place that the distance is that of.
    pub location_label: Option<Seq<char>>,
}

impl View for DigestItem {
    type V = Entry;

    open spec fn view(&self) -> Entry {
        Entry {
            guids: self.guids.deep_view(),
            source_name: self.source_name@,
            source_count: self.source_count as int,
            title: self.title@,
            link: self.link.deep_view(),
            link_note: self.link_note.deep_view(),
            score: self.score as int,
            max_score: self.max_score as int,
            distance_meters: self.distance_meters,
            location_label: self.location_label.deep_view(),
        }
    }
}

/// What the entries of a digest say.
pub open spec fn entries(s: Seq<DigestItem>) -> Seq<Entry> {
    s.map_values(|d: DigestItem| d@)
}

/// A copy of a string that may be missing.
pub fn copy_text(s: &Option<String>) -> (r: Option<String>)
    ensures
        r == *s,
{
    match s {
        Some(t) => Some(t.clone()),
        None => None,
    }
}

/// The text of a string that may be missing.
pub open spec fn text_of(s: Option<String>) -> Seq<char> {
    match s {
        Some(t) => t@,
        None => seq![],
    }
}

/// A reference to a string that may be missing.
pub open spec fn str_view(s: Option<&str>) -> Option<Seq<char>> {
    match s {
        Some(t) => Some(t@),
        None => None,
    }
}

/// The string that may be missing, as a string slice.
pub fn as_str_opt(s: &Option<String>) -> (r: Option<&str>)
    ensures
        str_view(r) == s.deep_view(),
{
    match s {
        Some(t) => Some(t.as_str()),
        None => None,
    }
}

impl Clone for FeedItem {
    fn clone(&self) -> (r: FeedItem)
        ensures
            r == *self,
    {
        FeedItem {
            guid: self.guid.clone(),
            title: self.title.clone(),
            link: copy_text(&self.link),
            link_note: copy_text(&self.link_note),
            description: copy_text(&self.description),
            article_text: copy_text(&self.article_text),
            source_name: self.source_name.clone(),
            score: self.score,
            max_score: self.max_score,
            distance_meters: self.distance_meters,
            location_label: copy_text(&self.location_label),
            published_at: self.published_at,
        }
    }
}

impl Clone for DbItem {
    fn clone(&self) -> (r: DbItem)
        ensures
            r == *self,
    {
        DbItem {
            guid: self.guid.clone(),
            source_name: self.source_name.clone(),
            title: self.title.clone(),
            link: copy_text(&self.link),
            link_note: copy_text(&self.link_note),
            score: self.score,
            max_score: self.max_score,
            distance_meters: self.distance_meters,
            location_label: copy_text(&self.location_label),
        }
    }
}

impl Clone for DigestItem {
    fn clone(&self) -> (r: DigestItem)
        ensures
            r@ == self@,
    {
        let guids = crate::config::copy_strings(&self.guids);
        assert(guids.deep_view() =~= self.guids.deep_view());
        DigestItem {
            guids,
            source_name: self.source_name.clone(),
            source_count: self.source_count,
            title: self.title.clone(),
            link: copy_text(&self.link),
            link_note: copy_text(&self.link_note),
            score: self.score,
            max_score: self.max_score,
            distance_meters: self.distance_meters,
            location_label: copy_text(&self.location_label),
        }
    }
}

impl DigestItem {
    /// The entry for a single item.
    pub fn from_db(item: DbItem) -> (r: DigestItem)
        ensures
            r.guids@ == seq![item.guid],
            r.source_name == item.source_name,
            r.source_count == 1,
            r.title == item.title,
            r.link == item.link,
            r.link_note == item.link_note,
            r.score == item.score,
            r.max_score == item.max_score,
            r.distance_meters == item.distance_meters,
            r.location_label == item.location_label,
    {
        let mut guids: Vec<String> = Vec::new();
        guids.push(item.guid);
        assert(guids@ == seq![item.guid]);
        DigestItem {
            guids,
            source_name: item.source_name,
            source_count: 1,
            title: item.title,
            link: item.link,
            link_note: item.link_note,
            score: item.score,
            max_score: item.max_score,
            distance_meters: item.distance_meters,
            location_label: item.location_label,
        }
    }
}

} // verus!

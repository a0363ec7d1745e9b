//! Where news come from.

use vstd::prelude::*;

use crate::config::SourceConfig;
use crate::dates::{feed_date, parse_feed_date};
use crate::feed::first_chars;
use crate::item::{items_view, text_of, FeedItem, Item};
use crate::json::{
    document_in, items_in, json_string, member, parse_json, quoted_string, text_in, Json,
};
use crate::num::{decimal, decimal_of};
use crate::text::{
    all_in, append, append_str, chars_of, ends_with, law_trimming_takes_the_ends,
    law_until_the_first, occurs, occurs_at, split, split_of, starts_with, string_of, trim_str,
    trimmed, until, until_of, CharClass,
};
use crate::url::{url_encode, url_encoded};
use crate::words::at_most;

verus! {

/// The kinds of sources.
#[derive(Clone, Copy, PartialEq, Eq, Structural)]
pub enum SourceType {
    /// An RSS, Atom or JSON feed.
    Rss,
    /// A search on Bluesky.
    Bluesky,
}

impl Default for SourceType {
    fn default() -> (r: SourceType)
        ensures
            r == SourceType::Rss,
    {
        SourceType::Rss
    }
}

/// The account that all searches on Bluesky are made with.
pub struct BlueskyContext {
    /// The name of the account.
    pub identifier: String,
    /// Its password.
    pub password: String,
}

/// A feed.
pub struct RssAdapter {
    /// The name of the source.
    pub name: String,
    /// The address of the feed.
    pub url: String,
    /// How many hours old items may be; any age if it is missing.
    pub max_age_hours: Option<u64>,
}

/// A search on Bluesky.
pub struct BlueskyAdapter {
    /// The name of the source.
    pub name: String,
    /// What is searched for.
    pub query: String,
    /// How many posts the search returns.
    pub limit: usize,
    /// How many hours old posts may be.
    pub max_age_hours: u64,
    /// The name of the account.
    pub identifier: String,
    /// Its password.
    pub password: String,
}

/// What items are fetched with.
pub enum SourceAdapter {
    /// From a feed.
    Rss(RssAdapter),
    /// By a search on Bluesky.
    Bluesky(BlueskyAdapter),
}

/// The text of a string, empty if it is missing.
fn or_empty(s: &Option<String>) -> (r: String)
    ensures
        r@ == text_of(*s),
{
    match s {
        Some(t) => t.clone(),
        None => String::new(),
    }
}

/// What the items of a source are fetched with. Searches without an account are
/// made with empty credentials.
pub fn build_adapter(source: &SourceConfig, bluesky: Option<&BlueskyContext>) -> (r: SourceAdapter)
    ensures
        match r {
            SourceAdapter::Rss(a) => {
                &&& source.source_type == SourceType::Rss
                &&& a.name@ == source.name@
                &&& a.url@ == text_of(source.url)
                &&& a.max_age_hours == source.max_age_hours
            },
            SourceAdapter::Bluesky(a) => {
                &&& source.source_type == SourceType::Bluesky
                &&& a.name@ == source.name@
                &&& a.query@ == text_of(source.query)
                &&& a.limit == source.limit.unwrap_or(25)
                &&& a.max_age_hours == source.max_age_hours.unwrap_or(24)
                &&& match bluesky {
                    Some(c) => a.identifier@ == c.identifier@ && a.password@ == c.password@,
                    None => a.identifier@.len() == 0 && a.password@.len() == 0,
                }
            },
        },
{
    match source.source_type {
        SourceType::Rss => SourceAdapter::Rss(
            RssAdapter {
                name: source.name.clone(),
                url: or_empty(&source.url),
                max_age_hours: source.max_age_hours,
            },
        ),
        SourceType::Bluesky => {
            let (identifier, password) = match bluesky {
                Some(c) => (c.identifier.clone(), c.password.clone()),
                None => (String::new(), String::new()),
            };
            let limit: usize = match source.limit {
                Some(n) => n,
                None => 25,
            };
            let max_age_hours: u64 = match source.max_age_hours {
                Some(n) => n,
                None => 24,
            };
            SourceAdapter::Bluesky(
                BlueskyAdapter {
                    name: source.name.clone(),
                    query: or_empty(&source.query),
                    limit,
                    max_age_hours,
                    identifier,
                    password,
                },
            )
        },
    }
}

// ---------------------------------------------------------------------------
// The age of items
// ---------------------------------------------------------------------------

/// Whether an item is new enough. Items without a date are.
pub open spec fn is_fresh(item: Item, cutoff: int) -> bool {
    match item.published_at {
        Some(t) => t >= cutoff,
        None => true,
    }
}

/// The items that are new enough.
pub open spec fn fresh(items: Seq<Item>, cutoff: int) -> Seq<Item>
    decreases items.len(),
{
    if items.len() == 0 {
        items
    } else {
        let before = fresh(items.drop_last(), cutoff);
        if is_fresh(items.last(), cutoff) {
            before.push(items.last())
        } else {
            before
        }
    }
}

impl RssAdapter {
    /// Whether the point in time before which items are too old can be counted.
    pub open spec fn has_cutoff(self, now: i64) -> bool {
        match self.max_age_hours {
            Some(h) => h * 3600 <= i64::MAX && now - h * 3600 >= i64::MIN,
            None => true,
        }
    }

    /// What is kept of some items: those that are new enough for the source.
    pub open spec fn kept(self, items: Seq<Item>, now: int) -> Seq<Item> {
        match self.max_age_hours {
            Some(h) => fresh(items, now - h * 3600),
            None => items,
        }
    }

    /// The items that are new enough for the source.
    pub fn keep_fresh(&self, items: Vec<FeedItem>, now: i64) -> (r: Vec<FeedItem>)
        requires
            self.has_cutoff(now),
        ensures
            items_view(r@) == match self.max_age_hours {
                Some(h) => fresh(items_view(items@), now - h * 3600),
                None => items_view(items@),
            },
            items_view(r@) == self.kept(items_view(items@), now as int),
    {
        let hours: u64 = match self.max_age_hours {
            Some(h) => h,
            None => {
                return items;
            },
        };
        let cutoff: i64 = now - (hours * 3600) as i64;
        let ghost all = items@;
        let mut rest = items;
        let mut out: Vec<FeedItem> = Vec::new();
        let ghost mut n: int = 0;
        assert(items_view(all.take(0)) == Seq::<Item>::empty());
        assert(items_view(out@) == Seq::<Item>::empty());
        assert(all.skip(0) == all);
        while rest.len() > 0
            invariant
                0 <= n <= all.len(),
                rest@ == all.skip(n),
                items_view(out@) == fresh(items_view(all.take(n)), cutoff as int),
            decreases rest@.len(),
        {
            let ghost before = out@;
            let item = rest.remove(0);
            proof {
                assert(item == all[n]);
                let t = items_view(all.take(n + 1));
                assert(t.drop_last() == items_view(all.take(n)));
                assert(t.last() == item@);
            }
            let keep = match item.published_at {
                Some(t) => t >= cutoff,
                None => true,
            };
            if keep {
                out.push(item);
                assert(items_view(out@) == items_view(before).push(item@));
            }
            proof {
                n = n + 1;
            }
        }
        assert(all.take(n) == all);
        out
    }
}

// ---------------------------------------------------------------------------
// Posts
// ---------------------------------------------------------------------------

/// The text of a post.
pub open spec fn post_text(post: Json) -> Seq<char> {
    match text_in(member(member(post, "record"@), "text"@)) {
        Some(t) => trimmed(t),
        None => trimmed(seq![]),
    }
}

/// Where a post is: on the page of its author, by the last part of its address.
pub open spec fn post_link(post: Json, uri: Seq<char>) -> Seq<char> {
    "https://bsky.app/profile/"@ + (match text_in(member(member(post, "author"@), "handle"@)) {
        Some(h) => h,
        None => "unknown"@,
    }) + "/post/"@ + split(uri, '/').last()
}

/// The item for a post; none where it has no address or no text. The headline is
/// the first line, of at most 120 characters.
pub open spec fn item_for_post(post: Json, source_name: Seq<char>) -> Option<Item> {
    match text_in(member(post, "uri"@)) {
        None => None,
        Some(uri) => {
            let text = post_text(post);
            if text.len() == 0 {
                None
            } else {
                Some(
                    Item {
                        guid: uri,
                        title: at_most(trimmed(until(text, '\n')), 120),
                        link: Some(post_link(post, uri)),
                        link_note: None,
                        description: Some(text),
                        article_text: Some(text),
                        source_name,
                        score: 0,
                        max_score: 0,
                        distance_meters: None,
                        location_label: None,
                        published_at: match text_in(
                            member(member(post, "record"@), "createdAt"@),
                        ) {
                            Some(d) => feed_date(d),
                            None => None,
                        },
                    },
                )
            }
        },
    }
}

/// The items for posts.
pub open spec fn items_for_posts(posts: Seq<Json>, source_name: Seq<char>) -> Seq<Item>
    decreases posts.len(),
{
    if posts.len() == 0 {
        seq![]
    } else {
        let before = items_for_posts(posts.drop_last(), source_name);
        match item_for_post(posts.last(), source_name) {
            Some(i) => before.push(i),
            None => before,
        }
    }
}

/// The items for the answer to a search; none where it holds no posts.
pub open spec fn items_in_answer(answer: Option<Json>, source_name: Seq<char>) -> Seq<Item> {
    match answer {
        Some(j) => match items_in(member(j, "posts"@)) {
            Some(posts) => items_for_posts(posts, source_name),
            None => seq![],
        },
        None => seq![],
    }
}

/// The address that answers to searches come from.
pub open spec fn bluesky_search(query: Seq<char>, limit: int, since: Seq<char>) -> Seq<char> {
    "https://bsky.social/xrpc/app.bsky.feed.searchPosts?q="@ + url_encoded(query) + "&limit="@
        + decimal(
        (if limit < 100 {
            limit
        } else {
            100
        }) as nat,
    ) + "&sort=latest&since="@ + url_encoded(since)
}

/// The text of a member of a member.
fn nested_text<'a>(j: &'a Json, outer: &str, inner: &str) -> (r: Option<&'a str>)
    ensures
        crate::item::str_view(r) == text_in(member(member(*j, outer@), inner@)),
{
    match j.get(outer) {
        Some(v) => v.text_of(inner),
        None => None,
    }
}

impl BlueskyAdapter {
    /// The address that the answer to the search comes from.
    pub fn search_url(&self, since: &str) -> (r: String)
        ensures
            r@ == bluesky_search(self.query@, self.limit as int, since@),
    {
        let limit: usize = if self.limit < 100 {
            self.limit
        } else {
            100
        };
        let mut out: Vec<char> = Vec::new();
        append_str(&mut out, "https://bsky.social/xrpc/app.bsky.feed.searchPosts?q=");
        append_str(&mut out, url_encode(self.query.as_str()).as_str());
        append_str(&mut out, "&limit=");
        append(&mut out, decimal_of(limit as u64).as_slice());
        append_str(&mut out, "&sort=latest&since=");
        append_str(&mut out, url_encode(since).as_str());
        assert(out@ =~= bluesky_search(self.query@, self.limit as int, since@));
        string_of(out.as_slice())
    }

    /// The item for a post; `None` where it has no address or no text.
    pub fn normalize(&self, post: &Json) -> (r: Option<FeedItem>)
        ensures
            match r {
                Some(i) => item_for_post(*post, self.name@) == Some(i@),
                None => item_for_post(*post, self.name@) is None,
            },
    {
        let uri = match post.text_of("uri") {
            Some(u) => u,
            None => {
                return None;
            },
        };
        let text = match nested_text(post, "record", "text") {
            Some(t) => trim_str(t),
            None => trim_str(""),
        };
        proof {
            reveal_strlit("");
            assert(""@ == Seq::<char>::empty());
        }
        if text.as_str().is_empty() {
            return None;
        }
        let c = chars_of(text.as_str());
        let line = string_of(until_of(c.as_slice(), '\n').as_slice());
        let title = first_chars(trim_str(line.as_str()).as_str(), 120);
        let parts = split_of(chars_of(uri).as_slice(), '/');
        proof {
            crate::text::lemma_split_nonempty(uri@, '/');
            assert(parts.deep_view().len() == parts@.len());
            assert(parts.deep_view().last() == parts@.last()@);
        }
        let mut link: Vec<char> = Vec::new();
        append_str(&mut link, "https://bsky.app/profile/");
        match nested_text(post, "author", "handle") {
            Some(h) => append_str(&mut link, h),
            None => append_str(&mut link, "unknown"),
        }
        append_str(&mut link, "/post/");
        append(&mut link, parts[parts.len() - 1].as_slice());
        assert(link@ =~= post_link(*post, uri@));
        let published_at = match nested_text(post, "record", "createdAt") {
            Some(d) => parse_feed_date(d),
            None => None,
        };
        Some(
            FeedItem {
                guid: uri.to_owned(),
                title,
                link: Some(string_of(link.as_slice())),
                link_note: None,
                description: Some(text.clone()),
                article_text: Some(text),
                source_name: self.name.clone(),
                score: 0,
                max_score: 0,
                distance_meters: None,
                location_label: None,
                published_at,
            },
        )
    }

    /// The items for posts.
    pub fn items_of_posts(&self, posts: &[Json]) -> (r: Vec<FeedItem>)
        ensures
            items_view(r@) == items_for_posts(posts@, self.name@),
    {
        let n: usize = posts.len();
        let mut out: Vec<FeedItem> = Vec::new();
        let mut i: usize = 0;
        assert(posts@.take(0) == Seq::<Json>::empty());
        assert(items_view(out@) == Seq::<Item>::empty());
        while i < n
            invariant
                0 <= i <= n,
                n == posts@.len(),
                items_view(out@) == items_for_posts(posts@.take(i as int), self.name@),
            decreases n - i,
        {
            let ghost before = out@;
            assert(posts@.take(i + 1).drop_last() == posts@.take(i as int));
            if let Some(item) = self.normalize(&posts[i]) {
                out.push(item);
                assert(items_view(out@) == items_view(before).push(item@));
            }
            i += 1;
        }
        assert(posts@.take(n as int) == posts@);
        out
    }

    /// The items for the answer to the search; none where it holds no posts.
    pub fn read_answer(&self, body: &str) -> (r: Vec<FeedItem>)
        ensures
            items_view(r@) == items_in_answer(document_in(body@), self.name@),
    {
        let none: Vec<FeedItem> = Vec::new();
        assert(items_view(none@) == Seq::<Item>::empty());
        match parse_json(body) {
            Some(j) => match j.items_of("posts") {
                Some(posts) => self.items_of_posts(posts.as_slice()),
                None => none,
            },
            None => none,
        }
    }
}

// ---------------------------------------------------------------------------
// Sessions
// ---------------------------------------------------------------------------

/// A session with Bluesky. Time is counted in nanoseconds on a clock that only
/// goes forward.
pub struct BlueskySession {
    /// What requests are made with.
    pub access_jwt: String,
    /// What the session is renewed with.
    pub refresh_jwt: String,
    /// Until when it lasts.
    pub expires_at: u128,
}

/// For how long a session is used: an hour and a half.
pub const SESSION_NANOS: u128 = 5_400_000_000_000;

/// How much of a session has to be left for it to be used: five minutes.
pub const SPARE_NANOS: u128 = 300_000_000_000;

/// What is sent to open a session.
pub open spec fn session_request(identifier: Seq<char>, password: Seq<char>) -> Seq<char> {
    "{\"identifier\":"@ + quoted_string(identifier) + ",\"password\":"@ + quoted_string(password)
        + "}"@
}

/// What is sent to open a session.
pub fn session_request_body(identifier: &str, password: &str) -> (r: Option<String>)
    ensures
        r.deep_view() == Some(session_request(identifier@, password@)),
{
    match (json_string(identifier), json_string(password)) {
        (Some(i), Some(p)) => {
            let mut out: Vec<char> = Vec::new();
            append_str(&mut out, "{\"identifier\":");
            append_str(&mut out, i.as_str());
            append_str(&mut out, ",\"password\":");
            append_str(&mut out, p.as_str());
            append_str(&mut out, "}");
            assert(out@ =~= session_request(identifier@, password@));
            Some(string_of(out.as_slice()))
        },
        _ => None,
    }
}

/// Whether an answer opens a session: it names no error and gives both tokens.
pub open spec fn opens_session(j: Json) -> bool {
    text_in(member(j, "error"@)) is None && text_in(member(j, "accessJwt"@)) is Some && text_in(
        member(j, "refreshJwt"@),
    ) is Some
}

/// Whether a session is the one that an answer opens at a time.
pub open spec fn is_session_of(s: BlueskySession, j: Json, now: u128) -> bool {
    &&& Some(s.access_jwt@) == text_in(member(j, "accessJwt"@))
    &&& Some(s.refresh_jwt@) == text_in(member(j, "refreshJwt"@))
    &&& s.expires_at == now + SESSION_NANOS
}

/// The session that an answer opens, if it opens one.
pub fn session_of(answer: &Json, now: u128) -> (r: Option<BlueskySession>)
    requires
        now + SESSION_NANOS <= u128::MAX,
    ensures
        r is Some <==> opens_session(*answer),
        r matches Some(s) ==> is_session_of(s, *answer, now),
{
    if answer.text_of("error").is_some() {
        return None;
    }
    match (answer.text_of("accessJwt"), answer.text_of("refreshJwt")) {
        (Some(a), Some(b)) => Some(
            BlueskySession {
                access_jwt: a.to_owned(),
                refresh_jwt: b.to_owned(),
                expires_at: now + SESSION_NANOS,
            },
        ),
        _ => None,
    }
}

/// Reads an answer: the session that it opens, if it opens one.
pub fn read_session(body: &str, now: u128) -> (r: Option<BlueskySession>)
    requires
        now + SESSION_NANOS <= u128::MAX,
    ensures
        r is Some <==> (document_in(body@) matches Some(j) && opens_session(j)),
        r matches Some(s) ==> is_session_of(s, document_in(body@)->0, now),
{
    match parse_json(body) {
        Some(j) => session_of(&j, now),
        None => None,
    }
}

/// What happened on the way to a token.
pub enum TokenEvent {
    /// A token is asked for.
    Wanted,
    /// The session was renewed, or not.
    Refreshed(Option<BlueskySession>),
    /// A session was opened, or not.
    Opened(Option<BlueskySession>),
}

/// What is done next for a token.
pub enum TokenAction {
    /// The token is used.
    Use(String),
    /// The session is renewed with a token.
    Refresh(String),
    /// A new session is opened.
    Open,
    /// There is no token.
    GiveUp,
}

/// Whether enough of a session is left.
pub open spec fn is_usable(s: BlueskySession, now: u128) -> bool {
    s.expires_at > now + SPARE_NANOS
}

/// Decides what is done next for a token, and which session is kept. A session
/// is used while enough of it is left; else it is renewed; and where that fails,
/// or there is none, a new one is opened.
pub fn token_step(session: Option<BlueskySession>, event: TokenEvent, now: u128) -> (r: (
    Option<BlueskySession>,
    TokenAction,
))
    ensures
        match event {
            TokenEvent::Wanted => r.0 == session && match session {
                Some(s) => if is_usable(s, now) {
                    r.1 matches TokenAction::Use(t) && t@ == s.access_jwt@
                } else {
                    r.1 matches TokenAction::Refresh(t) && t@ == s.refresh_jwt@
                },
                None => r.1 is Open,
            },
            TokenEvent::Refreshed(Some(s)) => r.0 == Some(s) && (r.1 matches TokenAction::Use(t)
                && t@ == s.access_jwt@),
            TokenEvent::Refreshed(None) => r.0 == session && r.1 is Open,
            TokenEvent::Opened(Some(s)) => r.0 == Some(s) && (r.1 matches TokenAction::Use(t) && t@
                == s.access_jwt@),
            TokenEvent::Opened(None) => r.0 == session && r.1 is GiveUp,
        },
{
    match event {
        TokenEvent::Wanted => {
            let action = match &session {
                Some(s) => if s.expires_at > now && s.expires_at - now > SPARE_NANOS {
                    TokenAction::Use(s.access_jwt.clone())
                } else {
                    TokenAction::Refresh(s.refresh_jwt.clone())
                },
                None => TokenAction::Open,
            };
            (session, action)
        },
        TokenEvent::Refreshed(Some(s)) => {
            let token = s.access_jwt.clone();
            (Some(s), TokenAction::Use(token))
        },
        TokenEvent::Refreshed(None) => (session, TokenAction::Open),
        TokenEvent::Opened(Some(s)) => {
            let token = s.access_jwt.clone();
            (Some(s), TokenAction::Use(token))
        },
        TokenEvent::Opened(None) => (session, TokenAction::GiveUp),
    }
}

// ---------------------------------------------------------------------------
// Laws
// ---------------------------------------------------------------------------

/// Items without a date are never too old, and what stays is new enough.
pub proof fn law_undated_items_stay(items: Seq<Item>, cutoff: int)
    ensures
        fresh(items, cutoff).len() <= items.len(),
        forall|i: int|
            0 <= i < fresh(items, cutoff).len() ==> is_fresh(
                #[trigger] fresh(items, cutoff)[i],
                cutoff,
            ),
        forall|i: int|
            0 <= i < items.len() && (#[trigger] items[i]).published_at is None ==> fresh(
                items,
                cutoff,
            ).contains(items[i]),
    decreases items.len(),
{
    if items.len() > 0 {
        let t = items.drop_last();
        law_undated_items_stay(t, cutoff);
        let before = fresh(t, cutoff);
        let all = fresh(items, cutoff);
        assert forall|i: int|
            0 <= i < items.len() && (#[trigger] items[i]).published_at is None implies all.contains(
            items[i],
        ) by {
            if i < t.len() {
                assert(t[i] == items[i]);
                let k = choose|k: int| 0 <= k < before.len() && before[k] == items[i];
                assert(all[k] == items[i]);
            } else {
                assert(all[all.len() - 1] == items[i]);
            }
        }
    }
}

/// What is kept of the items of a source is all that is not dated before the time, in its order.
pub proof fn law_only_old_items_are_left_out(items: Seq<Item>, cutoff: int)
    ensures
        fresh(items, cutoff) == items.filter(
            |i: Item| i.published_at is None || i.published_at->0 >= cutoff,
        ),
    decreases items.len(),
{
    reveal(Seq::filter);
    if items.len() > 0 {
        law_only_old_items_are_left_out(items.drop_last(), cutoff);
    }
}

/// The items for two lists of posts make those for both, and a post gives an item exactly if it
/// has an address and more than white space in its text.
pub proof fn law_every_post_counts(a: Seq<Json>, b: Seq<Json>, post: Json, source_name: Seq<char>)
    ensures
        items_for_posts(a + b, source_name) == items_for_posts(a, source_name) + items_for_posts(
            b,
            source_name,
        ),
        items_for_posts(seq![post], source_name).len() == (if text_in(member(post, "uri"@)) is Some
            && (text_in(member(member(post, "record"@), "text"@)) matches Some(t) && trimmed(t).len()
            > 0) {
            1int
        } else {
            0
        }),
        item_for_post(post, source_name) matches Some(item) ==> items_for_posts(
            seq![post],
            source_name,
        ) == seq![item],
    decreases b.len(),
{
    let none = Seq::<Json>::empty();
    assert(seq![post].drop_last() == none);
    assert(items_for_posts(none, source_name) == Seq::<Item>::empty());
    assert(trimmed(Seq::<char>::empty()).len() == 0);
    if b.len() == 0 {
        assert(a + b == a);
        assert(items_for_posts(a, source_name) + items_for_posts(b, source_name) == items_for_posts(
            a,
            source_name,
        ));
    } else {
        law_every_post_counts(a, b.drop_last(), post, source_name);
        assert((a + b).drop_last() == a + b.drop_last());
        assert((a + b).last() == b.last());
        let x = items_for_posts(a, source_name);
        let y = items_for_posts(b.drop_last(), source_name);
        if let Some(item) = item_for_post(b.last(), source_name) {
            assert((x + y).push(item) == x + y.push(item));
        }
    }
}

/// The item for a post says what the post says: it is recognised by its address, its text is
/// the whole text, its headline starts the text and has no line break in it and at most 120
/// characters, and its link names the author and ends as the address does.
pub proof fn law_items_say_what_posts_say(post: Json, source_name: Seq<char>)
    ensures
        item_for_post(post, source_name) matches Some(item) ==> {
            let text = trimmed(text_in(member(member(post, "record"@), "text"@))->0);
            &&& text_in(member(post, "uri"@)) == Some(item.guid)
            &&& item.description == Some(text) && item.article_text == Some(text)
            &&& item.title.len() <= 120 && !item.title.contains('\n')
            &&& text.len() <= 120 && !text.contains('\n') ==> item.title == trimmed(text)
            &&& item.source_name == source_name
            &&& item.link matches Some(link) && (forall|a: Seq<char>|
                text_in(member(member(post, "author"@), "handle"@)) == Some(a) ==> starts_with(
                    link,
                    #[trigger] ("https://bsky.app/profile/"@ + a + "/post/"@),
                ))
            &&& item.link matches Some(link) && ends_with(link, split(item.guid, '/').last())
            &&& text_in(member(member(post, "record"@), "createdAt"@)) is None
                ==> item.published_at is None
            &&& text_in(member(member(post, "record"@), "createdAt"@)) matches Some(d) ==>
                item.published_at == feed_date(d)
        },
{
    if let Some(item) = item_for_post(post, source_name) {
        assert(trimmed(Seq::<char>::empty()).len() == 0);
        let text = post_text(post);
        let line = until(text, '\n');
        let whole = trimmed(line);
        law_until_the_first(text, '\n');
        law_trimming_takes_the_ends(line, CharClass::Space);
        let (x, y) = choose|x: Seq<char>, y: Seq<char>|
            line == #[trigger] (x + whole + y) && all_in(x, CharClass::Space) && all_in(
                y,
                CharClass::Space,
            );
        if item.title.contains('\n') {
            let i = choose|i: int| 0 <= i < item.title.len() && item.title[i] == '\n';
            assert(whole[i] == '\n');
            assert(line[x.len() + i] == '\n');
            assert(line.contains('\n'));
        }
        if text.len() <= 120 && !text.contains('\n') {
            if line.len() < text.len() {
                assert(text[line.len() as int] == '\n');
            }
            assert(text.take(text.len() as int) == text);
            assert(whole.len() <= line.len());
        }
        let link = item.link->0;
        let last = split(item.guid, '/').last();
        assert(link.subrange(link.len() - last.len(), link.len() as int) == last);
        assert forall|a: Seq<char>|
            text_in(member(member(post, "author"@), "handle"@)) == Some(a) implies starts_with(
            link,
            #[trigger] ("https://bsky.app/profile/"@ + a + "/post/"@),
        ) by {
            let head = "https://bsky.app/profile/"@ + a + "/post/"@;
            assert(link.subrange(0, head.len() as int) == head);
        }
    }
}

/// A session lasts an hour and a half from when it was opened, and is used until five minutes
/// before its end.
pub proof fn law_sessions_are_used_in_time(s: BlueskySession, j: Json, opened: u128, now: u128)
    requires
        is_session_of(s, j, opened),
        now >= opened,
    ensures
        is_usable(s, now) <==> now - opened < 85 * 60 * 1_000_000_000,
{
}

/// The address of a search asks for what is searched, and never for more than a hundred posts.
pub proof fn law_searches_are_limited(query: Seq<char>, limit: int, since: Seq<char>)
    requires
        limit >= 0,
    ensures
        starts_with(
            bluesky_search(query, limit, since),
            "https://bsky.social/xrpc/app.bsky.feed.searchPosts?q="@ + url_encoded(query)
                + "&limit="@,
        ),
        ends_with(bluesky_search(query, limit, since), "&sort=latest&since="@ + url_encoded(since)),
        limit <= 100 ==> occurs(
            bluesky_search(query, limit, since),
            "&limit="@ + decimal(limit as nat) + "&sort=latest&since="@,
        ),
        limit >= 100 ==> bluesky_search(query, limit, since) == bluesky_search(query, 100, since),
{
    let url = bluesky_search(query, limit, since);
    let head = "https://bsky.social/xrpc/app.bsky.feed.searchPosts?q="@ + url_encoded(query);
    let tail = url_encoded(since);
    let n: nat = (if limit < 100 {
        limit
    } else {
        100
    }) as nat;
    assert(url.subrange(0, (head + "&limit="@).len() as int) == head + "&limit="@);
    let end = "&sort=latest&since="@ + tail;
    assert(url.subrange(url.len() - end.len(), url.len() as int) == end);
    let middle = "&limit="@ + decimal(n) + "&sort=latest&since="@;
    let at = head.len() as int;
    assert(url.subrange(at, at + middle.len()) == middle);
    assert(occurs_at(url, middle, at));
}

/// An answer that names an error opens no session, whatever else it says, and neither does one
/// that lacks a token; any other does, and its tokens are those of the answer.
pub proof fn law_errors_open_no_session(j: Json)
    ensures
        text_in(member(j, "error"@)) is Some ==> !opens_session(j),
        text_in(member(j, "accessJwt"@)) is None ==> !opens_session(j),
        text_in(member(j, "refreshJwt"@)) is None ==> !opens_session(j),
        text_in(member(j, "error"@)) is None && text_in(member(j, "accessJwt"@)) is Some && text_in(
            member(j, "refreshJwt"@),
        ) is Some ==> opens_session(j),
{
}

/// A session is opened with the name first and the password behind it, each in quotation marks.
pub proof fn law_sessions_ask_with_name_and_password(identifier: Seq<char>, password: Seq<char>)
    ensures
        starts_with(
            session_request(identifier, password),
            "{\"identifier\":"@ + quoted_string(identifier),
        ),
        ends_with(
            session_request(identifier, password),
            "\"password\":"@ + quoted_string(password) + "}"@,
        ),
{
    reveal_strlit(",\"password\":");
    reveal_strlit("\"password\":");
    let front = "{\"identifier\":"@ + quoted_string(identifier);
    let mark = ",\"password\":"@;
    let key = "\"password\":"@;
    let end = key + quoted_string(password) + "}"@;
    let all = session_request(identifier, password);
    assert(mark == seq![','] + key);
    assert(all == front + mark + quoted_string(password) + "}"@);
    assert(all.subrange(0, front.len() as int) == front);
    assert(all.subrange(all.len() - end.len(), all.len() as int) == end);
}

/// A source that has a limit keeps the items that are at most so many hours old, and those
/// without a date; a source without a limit keeps all.
pub proof fn law_items_are_kept_for_hours(adapter: RssAdapter, items: Seq<Item>, now: int)
    ensures
        adapter.max_age_hours matches Some(hours) ==> adapter.kept(items, now) == items.filter(
            |i: Item| i.published_at is None || now - i.published_at->0 <= hours * 3600,
        ),
        adapter.max_age_hours is None ==> adapter.kept(items, now) == items,
{
    if let Some(hours) = adapter.max_age_hours {
        law_only_old_items_are_left_out(items, now - hours * 3600);
        let a = |i: Item| i.published_at is None || i.published_at->0 >= now - hours * 3600;
        let b = |i: Item| i.published_at is None || now - i.published_at->0 <= hours * 3600;
        assert(a =~= b);
    }
}

} // verus!

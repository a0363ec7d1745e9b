//! What becomes of a new item: article, keywords, place, score, decision.

use vstd::prelude::*;

use crate::article::ArticleFetch;
use crate::config::{city_name, city_of, FilterConfig, SourceConfig};
use crate::distance::{distance_score, score_at};
use crate::filter::{
    area_finds, blocked, find_configured_place_distance, keyword_check, keyword_text, mentions,
    nearest_place, nearest_upto, passes, place_text, place_view, places_mentioned,
};
use crate::geocode::DistanceLookup;
use crate::ieee::Real;
use crate::item::FeedItem;
use crate::num::{decimal_int, decimal_int_of};
use crate::text::{append, append_str, ends_with, occurs, starts_with, string_of};
use crate::words::normalized;

verus! {

/// What becomes of an item.
pub enum ProcessOutcome {
    /// It waits for the next digest.
    Queued(FeedItem),
    /// It is kept for a while, in case other sources report it too.
    Candidate {
        /// The item.
        item: FeedItem,
        /// Why it is not queued.
        reason: String,
    },
    /// It is dropped.
    Dropped {
        /// The item.
        item: FeedItem,
        /// Why it is dropped.
        reason: String,
    },
    /// It is looked at again at the next poll.
    Retry {
        /// The item.
        item: FeedItem,
        /// Why it could not be decided.
        reason: String,
    },
}

// ---------------------------------------------------------------------------
// The article
// ---------------------------------------------------------------------------

/// Whether the page behind an item's link is fetched: the item is filtered or
/// has a distance of its own, its text is not known, and it has a link.
pub open spec fn wants_article(source: &SourceConfig, item: &FeedItem) -> bool {
    &&& source.filter || source.base_implied_meters is Some
    &&& item.article_text is None
    &&& item.link is Some
}

/// Whether the page behind an item's link is fetched.
pub fn needs_article(source: &SourceConfig, item: &FeedItem) -> (r: bool)
    ensures
        r == wants_article(source, item),
{
    (source.filter || source.base_implied_meters.is_some()) && item.article_text.is_none()
        && item.link.is_some()
}

/// An item with what was learnt from the page behind its link. Where the page
/// says nothing of the link, the link stays.
pub open spec fn with_article(item: FeedItem, article: ArticleFetch) -> FeedItem {
    FeedItem {
        article_text: Some(article.text),
        link: match article.resolved_link {
            Some(l) => Some(l),
            None => item.link,
        },
        link_note: article.link_note,
        ..item
    }
}

/// An item with what was learnt from the page behind its link.
pub fn apply_article(item: FeedItem, article: ArticleFetch) -> (r: FeedItem)
    ensures
        r == with_article(item, article),
{
    let link = match article.resolved_link {
        Some(l) => Some(l),
        None => item.link,
    };
    FeedItem {
        guid: item.guid,
        title: item.title,
        link,
        link_note: article.link_note,
        description: item.description,
        article_text: Some(article.text),
        source_name: item.source_name,
        score: item.score,
        max_score: item.max_score,
        distance_meters: item.distance_meters,
        location_label: item.location_label,
        published_at: item.published_at,
    }
}

// ---------------------------------------------------------------------------
// Keywords
// ---------------------------------------------------------------------------

/// The keywords of which one has to be in an item: those of its source, if it
/// has any, or else those of the filter.
pub open spec fn effective_required(source: &SourceConfig, filter: &FilterConfig) -> Seq<Seq<char>> {
    match source.required {
        Some(r) => r.deep_view(),
        None => filter.required.deep_view(),
    }
}

/// The place that an item of a source is at where nothing says more.
pub open spec fn base_place(source: &SourceConfig, geocode_city: Seq<char>) -> Option<
    (Real, Seq<char>),
> {
    match source.base_implied_meters {
        Some(m) => Some(
            (
                m,
                if source.filter {
                    match city_of(geocode_city) {
                        Some(city) => city,
                        None => source.name@,
                    }
                } else {
                    source.name@
                },
            ),
        ),
        None => None,
    }
}

/// What the keywords of an item say.
pub enum KeywordDecision {
    /// A blocked term stands in the item.
    Blocked,
    /// None of the required terms stands in the item.
    Missing,
    /// The item is let through.
    At {
        /// The nearest area that is mentioned.
        area: Option<(Real, String)>,
        /// Where the source is, for want of anything better.
        base: Option<(Real, String)>,
    },
}

/// Whether the keywords of an item do not matter, or let it through.
pub open spec fn keywords_pass(source: &SourceConfig, item: &FeedItem, filter: &FilterConfig) -> bool {
    !source.filter || passes(keyword_text(item), filter, effective_required(source, filter))
}

/// Whether a blocked term stands in an item of a filtered source.
pub open spec fn is_blocked(source: &SourceConfig, item: &FeedItem, filter: &FilterConfig) -> bool {
    source.filter && mentions(keyword_text(item), filter.blocklist.deep_view())
}

/// The nearest area that an item of a filtered source mentions.
pub open spec fn area_place(source: &SourceConfig, item: &FeedItem, filter: &FilterConfig) -> Option<
    (Real, Seq<char>),
> {
    if source.filter {
        nearest_upto(
            filter.area@,
            area_finds(keyword_text(item), filter.area@),
            filter.area@.len() as int,
        ).0
    } else {
        None
    }
}

/// The place that is implied by what is known of an item: the nearest area that is
/// mentioned. The place of the source is used only where neither an area is mentioned
/// nor a street was found.
pub open spec fn implied(
    area: Option<(Real, Seq<char>)>,
    street: Option<(Real, Seq<char>)>,
    base: Option<(Real, Seq<char>)>,
) -> Option<(Real, Seq<char>)> {
    if area is None && street is None {
        base
    } else {
        area
    }
}

/// Looks at the keywords of an item.
pub fn keyword_stage(
    source: &SourceConfig,
    item: &FeedItem,
    filter: &FilterConfig,
    geocode_city: &str,
) -> (r: KeywordDecision)
    ensures
        match r {
            KeywordDecision::Blocked => is_blocked(source, item, filter),
            KeywordDecision::Missing => !keywords_pass(source, item, filter) && !is_blocked(
                source,
                item,
                filter,
            ),
            KeywordDecision::At { area, base } => keywords_pass(source, item, filter) && place_view(
                area,
            ) == area_place(source, item, filter) && place_view(base) == base_place(
                source,
                geocode_city@,
            ),
        },
{
    let mut area: Option<(Real, String)> = None;
    if source.filter {
        let required = match &source.required {
            Some(r) => r,
            None => &filter.required,
        };
        match keyword_check(item, filter, required.as_slice()) {
            None => {
                if blocked(item, filter) {
                    return KeywordDecision::Blocked;
                }
                return KeywordDecision::Missing;
            },
            Some((nearest, _)) => {
                area = nearest;
            },
        }
    }
    let base = match source.base_implied_meters {
        Some(m) => {
            let label = if source.filter {
                match city_name(geocode_city) {
                    Some(city) => city,
                    None => source.name.clone(),
                }
            } else {
                source.name.clone()
            };
            Some((m, label))
        },
        None => None,
    };
    KeywordDecision::At { area, base }
}

// ---------------------------------------------------------------------------
// The decision
// ---------------------------------------------------------------------------

/// The nearer of two places; the first one where neither is nearer.
pub open spec fn nearer(a: Option<(Real, Seq<char>)>, b: Option<(Real, Seq<char>)>) -> Option<
    (Real, Seq<char>),
> {
    match (a, b) {
        (Some(x), Some(y)) => if y.0.less(x.0) {
            b
        } else {
            a
        },
        (Some(_), None) => a,
        (None, _) => b,
    }
}

fn nearer_of(a: Option<(Real, String)>, b: Option<(Real, String)>) -> (r: Option<(Real, String)>)
    ensures
        place_view(r) == nearer(place_view(a), place_view(b)),
{
    match (a, b) {
        (Some(x), Some(y)) => if y.0.lt(x.0) {
            Some(y)
        } else {
            Some(x)
        },
        (Some(x), None) => Some(x),
        (None, b) => b,
    }
}

/// The score of a place; none where no place is known.
pub open spec fn place_score(place: Option<(Real, Seq<char>)>) -> int {
    match place {
        Some((m, _)) => score_at(m),
        None => 0,
    }
}

/// Whether an item is another one with the place and the score that were found.
pub open spec fn is_scored(
    scored: FeedItem,
    item: FeedItem,
    place: Option<(Real, Seq<char>)>,
) -> bool {
    &&& scored == FeedItem {
        score: scored.score,
        max_score: scored.max_score,
        distance_meters: scored.distance_meters,
        location_label: scored.location_label,
        ..item
    }
    &&& scored.score == place_score(place)
    &&& scored.max_score == 5
    &&& scored.distance_meters == match place {
        Some((m, _)) => Some(m),
        None => None,
    }
    &&& scored.location_label.deep_view() == match place {
        Some((_, l)) => Some(l),
        None => None,
    }
}

/// Why an item is not queued.
pub open spec fn below_threshold(score: int, threshold: int) -> Seq<char> {
    "score "@ + decimal_int(score) + " below digest threshold "@ + decimal_int(threshold)
}

fn below_threshold_text(score: i32, threshold: i32) -> (r: String)
    ensures
        r@ == below_threshold(score as int, threshold as int),
{
    let mut out: Vec<char> = Vec::new();
    append_str(&mut out, "score ");
    append(&mut out, decimal_int_of(score as i64).as_slice());
    append_str(&mut out, " below digest threshold ");
    append(&mut out, decimal_int_of(threshold as i64).as_slice());
    assert(out@ =~= below_threshold(score as int, threshold as int));
    string_of(out.as_slice())
}

/// What becomes of an item at a place. Items of sources that are not filtered
/// are queued, as are those that score high enough. Of the others those are
/// looked at again whose article could not be fetched, and those that score high
/// enough for it are candidates.
pub open spec fn is_judged(
    r: ProcessOutcome,
    source: &SourceConfig,
    item: FeedItem,
    filter: &FilterConfig,
    article_failed: bool,
    place: Option<(Real, Seq<char>)>,
) -> bool {
    let score = place_score(place);
    let reason_text = below_threshold(score, filter.digest_threshold as int);
    if !source.filter || score >= filter.digest_threshold {
        r matches ProcessOutcome::Queued(i) && is_scored(i, item, place)
    } else if article_failed {
        r matches ProcessOutcome::Retry { item: i, reason } && is_scored(i, item, place) && reason@
            == "article fetch failed and "@ + reason_text
    } else if score >= filter.candidate_min_score {
        r matches ProcessOutcome::Candidate { item: i, reason } && is_scored(i, item, place)
            && reason@ == reason_text
    } else {
        r matches ProcessOutcome::Dropped { item: i, reason } && is_scored(i, item, place)
            && reason@ == reason_text
    }
}

/// Decides what becomes of an item at a place.
pub fn judge(
    source: &SourceConfig,
    item: FeedItem,
    filter: &FilterConfig,
    article_failed: bool,
    place: Option<(Real, String)>,
) -> (r: ProcessOutcome)
    ensures
        is_judged(r, source, item, filter, article_failed, place_view(place)),
{
    let score: i32 = match &place {
        Some((m, _)) => distance_score(*m),
        None => 0,
    };
    let (distance_meters, location_label) = match place {
        Some((m, l)) => (Some(m), Some(l)),
        None => (None, None),
    };
    let scored = FeedItem {
        guid: item.guid,
        title: item.title,
        link: item.link,
        link_note: item.link_note,
        description: item.description,
        article_text: item.article_text,
        source_name: item.source_name,
        score,
        max_score: 5,
        distance_meters,
        location_label,
        published_at: item.published_at,
    };
    if source.filter && score < filter.digest_threshold {
        let reason = below_threshold_text(score, filter.digest_threshold);
        if article_failed {
            let mut full = "article fetch failed and ".to_owned();
            full.append(reason.as_str());
            return ProcessOutcome::Retry { item: scored, reason: full };
        }
        if score >= filter.candidate_min_score {
            return ProcessOutcome::Candidate { item: scored, reason };
        }
        return ProcessOutcome::Dropped { item: scored, reason };
    }
    ProcessOutcome::Queued(scored)
}

/// The place of a street that was found.
pub open spec fn street_place(lookup: Option<DistanceLookup>) -> Option<(Real, Seq<char>)> {
    match lookup {
        Some(DistanceLookup::Found(d, label)) => Some((d, label@)),
        _ => None,
    }
}

/// The place of the nearest of the configured places that an item mentions.
pub open spec fn configured_place(
    item: &FeedItem,
    filter: &FilterConfig,
    distances: Option<Seq<Real>>,
) -> Option<(Real, Seq<char>)> {
    match distances {
        Some(d) => nearest_place(
            places_mentioned(place_text(item), filter.places@),
            filter.places@,
            d,
            filter.places@.len() as int,
        ),
        None => None,
    }
}

/// What becomes of an item whose article was fetched, or not: an item with a blocked
/// term is dropped; one without a required term is dropped too, or looked at again if
/// its article could not be fetched; what could not be looked up is looked at again; and
/// else the nearest of the street, the configured place and the place that is implied
/// decides.
pub open spec fn is_processed(
    r: ProcessOutcome,
    source: &SourceConfig,
    item: FeedItem,
    filter: &FilterConfig,
    geocode_city: Seq<char>,
    article_failed: bool,
    lookup: Option<DistanceLookup>,
    distances: Option<Seq<Real>>,
) -> bool {
    if !keywords_pass(source, &item, filter) {
        if article_failed && !is_blocked(source, &item, filter) {
            r matches ProcessOutcome::Retry { item: i, reason } && i == item && reason@
                == "article fetch failed before keyword decision"@
        } else {
            r matches ProcessOutcome::Dropped { item: i, reason } && i == item && reason@
                == "required/blocklist keyword filter did not pass"@
        }
    } else if lookup == Some(DistanceLookup::TransientFailure) {
        r matches ProcessOutcome::Retry { item: i, reason } && i == item && reason@
            == "geocode transient failure before distance decision"@
    } else {
        is_judged(
            r,
            source,
            item,
            filter,
            article_failed,
            nearer(
                nearer(street_place(lookup), configured_place(&item, filter, distances)),
                implied(
                    area_place(source, &item, filter),
                    street_place(lookup),
                    base_place(source, geocode_city),
                ),
            ),
        )
    }
}

/// What becomes of an item that its keywords reject: it is looked at again if terms
/// that are missing may yet be found in its article.
pub fn rejected(item: FeedItem, may_be_found: bool) -> (r: ProcessOutcome)
    ensures
        if may_be_found {
            r matches ProcessOutcome::Retry { item: i, reason } && i == item && reason@
                == "article fetch failed before keyword decision"@
        } else {
            r matches ProcessOutcome::Dropped { item: i, reason } && i == item && reason@
                == "required/blocklist keyword filter did not pass"@
        },
{
    if may_be_found {
        ProcessOutcome::Retry {
            item,
            reason: "article fetch failed before keyword decision".to_owned(),
        }
    } else {
        ProcessOutcome::Dropped {
            item,
            reason: "required/blocklist keyword filter did not pass".to_owned(),
        }
    }
}

/// Decides what becomes of an item that its keywords let through, given the area
/// that they imply, where the source is, what came of looking for streets, and how far
/// away the configured places are. The last two are missing without a reference point.
pub fn decide(
    source: &SourceConfig,
    item: FeedItem,
    filter: &FilterConfig,
    article_failed: bool,
    area: Option<(Real, String)>,
    base: Option<(Real, String)>,
    lookup: Option<DistanceLookup>,
    distances: Option<&[Real]>,
) -> (r: ProcessOutcome)
    requires
        match distances {
            Some(d) => d@.len() == filter.places@.len(),
            None => true,
        },
    ensures
        if lookup == Some(DistanceLookup::TransientFailure) {
            r matches ProcessOutcome::Retry { item: i, reason } && i == item && reason@
                == "geocode transient failure before distance decision"@
        } else {
            is_judged(
                r,
                source,
                item,
                filter,
                article_failed,
                nearer(
                    nearer(
                        street_place(lookup),
                        configured_place(
                            &item,
                            filter,
                            match distances {
                                Some(d) => Some(d@),
                                None => None,
                            },
                        ),
                    ),
                    implied(place_view(area), street_place(lookup), place_view(base)),
                ),
            )
        },
{
    let street = match lookup {
        Some(DistanceLookup::Found(d, label)) => Some((d, label)),
        Some(DistanceLookup::TransientFailure) => {
            return ProcessOutcome::Retry {
                item,
                reason: "geocode transient failure before distance decision".to_owned(),
            };
        },
        _ => None,
    };
    let configured = find_configured_place_distance(&item, filter, distances);
    let fallback = if area.is_none() && street.is_none() {
        base
    } else {
        area
    };
    let place = nearer_of(nearer_of(street, configured), fallback);
    judge(source, item, filter, article_failed, place)
}

/// What becomes of an item, given what came of looking its streets up.
pub fn process_item(
    source: &SourceConfig,
    item: FeedItem,
    filter: &FilterConfig,
    geocode_city: &str,
    article_failed: bool,
    lookup: Option<DistanceLookup>,
    distances: Option<&[Real]>,
) -> (r: ProcessOutcome)
    requires
        match distances {
            Some(d) => d@.len() == filter.places@.len(),
            None => true,
        },
    ensures
        is_processed(
            r,
            source,
            item,
            filter,
            geocode_city@,
            article_failed,
            lookup,
            match distances {
                Some(d) => Some(d@),
                None => None,
            },
        ),
{
    match keyword_stage(source, &item, filter, geocode_city) {
        KeywordDecision::Blocked => rejected(item, false),
        KeywordDecision::Missing => rejected(item, article_failed),
        KeywordDecision::At { area, base } => decide(
            source,
            item,
            filter,
            article_failed,
            area,
            base,
            lookup,
            distances,
        ),
    }
}

// ---------------------------------------------------------------------------
// Laws
// ---------------------------------------------------------------------------

/// The item that an outcome is about.
pub open spec fn item_of(r: ProcessOutcome) -> FeedItem {
    match r {
        ProcessOutcome::Queued(item) => item,
        ProcessOutcome::Candidate { item, .. } => item,
        ProcessOutcome::Dropped { item, .. } => item,
        ProcessOutcome::Retry { item, .. } => item,
    }
}

/// Whatever becomes of an item, it keeps what it is recognised by and what it
/// says; only its score and its place are set.
pub proof fn law_items_keep_what_they_say(
    r: ProcessOutcome,
    source: &SourceConfig,
    item: FeedItem,
    filter: &FilterConfig,
    geocode_city: Seq<char>,
    article_failed: bool,
    lookup: Option<DistanceLookup>,
    distances: Option<Seq<Real>>,
)
    requires
        is_processed(
            r,
            source,
            item,
            filter,
            geocode_city,
            article_failed,
            lookup,
            distances,
        ),
    ensures
        item_of(r).guid == item.guid,
        item_of(r).title == item.title,
        item_of(r).link == item.link,
        item_of(r).link_note == item.link_note,
        item_of(r).description == item.description,
        item_of(r).article_text == item.article_text,
        item_of(r).source_name == item.source_name,
        item_of(r).published_at == item.published_at,
{
}

/// An item whose article could not be fetched, and in which no blocked term stands, is
/// never dropped and never a candidate: it is queued, or looked at again.
pub proof fn law_failed_fetches_are_retried(
    r: ProcessOutcome,
    source: &SourceConfig,
    item: FeedItem,
    filter: &FilterConfig,
    geocode_city: Seq<char>,
    lookup: Option<DistanceLookup>,
    distances: Option<Seq<Real>>,
)
    requires
        !is_blocked(source, &item, filter),
        is_processed(r, source, item, filter, geocode_city, true, lookup, distances),
    ensures
        r is Queued || r is Retry,
{
}

/// What is queued from a filtered source scores at least the threshold of the
/// digest. A candidate scores less, but at least what candidates need, and an item
/// that its keywords let through is dropped only below that.
pub proof fn law_threshold_separates(
    r: ProcessOutcome,
    source: &SourceConfig,
    item: FeedItem,
    filter: &FilterConfig,
    geocode_city: Seq<char>,
    article_failed: bool,
    lookup: Option<DistanceLookup>,
    distances: Option<Seq<Real>>,
)
    requires
        source.filter,
        is_processed(
            r,
            source,
            item,
            filter,
            geocode_city,
            article_failed,
            lookup,
            distances,
        ),
    ensures
        r is Queued ==> item_of(r).score >= filter.digest_threshold,
        r is Candidate ==> filter.candidate_min_score <= item_of(r).score < filter.digest_threshold,
        r is Dropped && keywords_pass(source, &item, filter) ==> item_of(r).score
            < filter.candidate_min_score,
{
}

/// An item of a filtered source in which a blocked term stands is always dropped,
/// whether its article could be fetched or not.
pub proof fn law_blocked_items_are_dropped(
    r: ProcessOutcome,
    source: &SourceConfig,
    item: FeedItem,
    filter: &FilterConfig,
    geocode_city: Seq<char>,
    article_failed: bool,
    lookup: Option<DistanceLookup>,
    distances: Option<Seq<Real>>,
)
    requires
        is_blocked(source, &item, filter),
        is_processed(
            r,
            source,
            item,
            filter,
            geocode_city,
            article_failed,
            lookup,
            distances,
        ),
    ensures
        r is Dropped,
        item_of(r) == item,
{
}

/// Whether a distance is a number, if there is one.
pub open spec fn is_measured(place: Option<(Real, Seq<char>)>) -> bool {
    place matches Some(p) ==> !p.0.is_nan()
}

/// Whether a distance is at most that of a place, if there is one.
pub open spec fn no_farther(distance: Option<Real>, place: Option<(Real, Seq<char>)>) -> bool {
    place matches Some(p) ==> (distance matches Some(d) && d.value() <= p.0.value())
}

/// The closer result always counts: an item that is judged is at most as far away
/// as the street that was found, as the configured place that it mentions, and as
/// the place that is implied, as long as those distances are numbers.
pub proof fn law_nearest_evidence_counts(
    r: ProcessOutcome,
    source: &SourceConfig,
    item: FeedItem,
    filter: &FilterConfig,
    geocode_city: Seq<char>,
    article_failed: bool,
    lookup: Option<DistanceLookup>,
    distances: Option<Seq<Real>>,
)
    requires
        keywords_pass(source, &item, filter),
        lookup != Some(DistanceLookup::TransientFailure),
        is_measured(street_place(lookup)),
        is_measured(configured_place(&item, filter, distances)),
        is_measured(area_place(source, &item, filter)),
        is_measured(base_place(source, geocode_city)),
        is_processed(
            r,
            source,
            item,
            filter,
            geocode_city,
            article_failed,
            lookup,
            distances,
        ),
    ensures
        no_farther(item_of(r).distance_meters, street_place(lookup)),
        no_farther(item_of(r).distance_meters, configured_place(&item, filter, distances)),
        no_farther(
            item_of(r).distance_meters,
            implied(
                area_place(source, &item, filter),
                street_place(lookup),
                base_place(source, geocode_city),
            ),
        ),
{
}

/// What becomes of an item that was looked at to the end: from a source that is not filtered
/// it is queued. From a filtered one it is queued exactly if its keywords let it through and
/// it scores at least the threshold of the digest, it is a candidate exactly if it scores less
/// than that but enough for one, and else it is dropped.
pub proof fn law_the_score_decides(
    r: ProcessOutcome,
    source: &SourceConfig,
    item: FeedItem,
    filter: &FilterConfig,
    geocode_city: Seq<char>,
    lookup: Option<DistanceLookup>,
    distances: Option<Seq<Real>>,
)
    requires
        lookup != Some(DistanceLookup::TransientFailure),
        is_processed(r, source, item, filter, geocode_city, false, lookup, distances),
    ensures
        !source.filter ==> r is Queued,
        source.filter && keywords_pass(source, &item, filter) ==> {
            let score = item_of(r).score;
            &&& r is Queued <==> score >= filter.digest_threshold
            &&& r is Candidate <==> filter.candidate_min_score <= score < filter.digest_threshold
            &&& r is Dropped <==> score < filter.digest_threshold && score
                < filter.candidate_min_score
        },
        source.filter && !keywords_pass(source, &item, filter) ==> r is Dropped,
{
}

/// An item that its keywords let through and whose street could not be looked up for now is
/// looked at again, as it is.
pub proof fn law_failed_lookups_are_retried(
    r: ProcessOutcome,
    source: &SourceConfig,
    item: FeedItem,
    filter: &FilterConfig,
    geocode_city: Seq<char>,
    article_failed: bool,
    distances: Option<Seq<Real>>,
)
    requires
        keywords_pass(source, &item, filter),
        is_processed(
            r,
            source,
            item,
            filter,
            geocode_city,
            article_failed,
            Some(DistanceLookup::TransientFailure),
            distances,
        ),
    ensures
        r is Retry,
        item_of(r) == item,
{
}

/// The score of an item that is judged is that of its distance, out of five. Distance and
/// place belong together: they are those of the street that was found, of the configured place
/// that is mentioned, of the area that is mentioned, or, where there is neither a street nor an
/// area, of the source. Without any of these the item has neither, and scores nothing.
pub proof fn law_score_and_place_belong_together(
    r: ProcessOutcome,
    source: &SourceConfig,
    item: FeedItem,
    filter: &FilterConfig,
    geocode_city: Seq<char>,
    article_failed: bool,
    lookup: Option<DistanceLookup>,
    distances: Option<Seq<Real>>,
)
    requires
        keywords_pass(source, &item, filter),
        lookup != Some(DistanceLookup::TransientFailure),
        is_processed(
            r,
            source,
            item,
            filter,
            geocode_city,
            article_failed,
            lookup,
            distances,
        ),
    ensures
        item_of(r).max_score == 5,
        match (item_of(r).distance_meters, item_of(r).location_label) {
            (Some(d), Some(l)) => item_of(r).score == score_at(d) && {
                ||| lookup matches Some(DistanceLookup::Found(m, name)) && m == d && name@ == l@
                ||| configured_place(&item, filter, distances) == Some((d, l@))
                ||| area_place(source, &item, filter) == Some((d, l@))
                ||| base_place(source, geocode_city) == Some((d, l@)) && area_place(
                    source,
                    &item,
                    filter,
                ) is None && !(lookup is Some && lookup->0 is Found)
            },
            (None, None) => item_of(r).score == 0 && !(lookup is Some && lookup->0 is Found)
                && configured_place(&item, filter, distances) is None && area_place(
                source,
                &item,
                filter,
            ) is None && base_place(source, geocode_city) is None,
            _ => false,
        },
{
}

/// A source that is not filtered lets every item through. A filtered one asks for its own
/// required terms if it has any listed, and for those of the filter if not: without one of
/// those in it, no item is let through.
pub proof fn law_sources_ask_for_their_terms(
    source: &SourceConfig,
    item: &FeedItem,
    filter: &FilterConfig,
)
    ensures
        !source.filter ==> keywords_pass(source, item, filter),
        source.filter ==> (source.required matches Some(own) ==> own@.len() > 0 && (forall|i: int|
            0 <= i < own@.len() ==> !occurs(
                keyword_text(item),
                normalized((#[trigger] own@[i])@),
            )) ==> !keywords_pass(source, item, filter)),
        source.filter && source.required is None && filter.required@.len() > 0 && (forall|i: int|
            0 <= i < filter.required@.len() ==> !occurs(
                keyword_text(item),
                normalized((#[trigger] filter.required@[i])@),
            )) ==> !keywords_pass(source, item, filter),
        source.filter && filter.blocklist@.len() == 0 ==> (source.required matches Some(own) ==> (
        forall|i: int|
            0 <= i < own@.len() && occurs(keyword_text(item), normalized((#[trigger] own@[i])@))
                ==> keywords_pass(source, item, filter))),
        source.filter && filter.blocklist@.len() == 0 && source.required is None ==> (forall|i: int|
            0 <= i < filter.required@.len() && occurs(
                keyword_text(item),
                normalized((#[trigger] filter.required@[i])@),
            ) ==> keywords_pass(source, item, filter)),
{
    let text = keyword_text(item);
    let required = effective_required(source, filter);
    let strings = match source.required {
        Some(own) => own@,
        None => filter.required@,
    };
    assert(required.len() == strings.len());
    assert forall|i: int| 0 <= i < strings.len() implies required[i] == (#[trigger] strings[i])@ by {}
    if mentions(text, required) {
        let i = choose|i: int|
            0 <= i < required.len() && occurs(text, normalized(#[trigger] required[i]));
        assert(occurs(text, normalized(strings[i]@)));
    }
    assert forall|i: int|
        0 <= i < strings.len() && occurs(text, normalized((#[trigger] strings[i])@)) implies mentions(
        text,
        required,
    ) by {
        assert(occurs(text, normalized(required[i])));
    }
    assert(!mentions(text, filter.blocklist.deep_view()) || filter.blocklist@.len() > 0);
}

/// The page behind a link gives an item its text and, where it says so, its link and the note
/// on it; nothing else of the item changes, and a page is fetched for no item that has its
/// text.
pub proof fn law_articles_are_added(source: &SourceConfig, item: FeedItem, article: ArticleFetch)
    ensures
        with_article(item, article).article_text == Some(article.text),
        with_article(item, article).link == (if article.resolved_link is Some {
            article.resolved_link
        } else {
            item.link
        }),
        with_article(item, article).link_note == article.link_note,
        with_article(item, article).guid == item.guid,
        with_article(item, article).title == item.title,
        with_article(item, article).description == item.description,
        with_article(item, article).source_name == item.source_name,
        with_article(item, article).score == item.score,
        with_article(item, article).published_at == item.published_at,
        !wants_article(source, &with_article(item, article)),
        wants_article(source, &item) ==> item.link is Some && (source.filter
            || source.base_implied_meters is Some),
        source.filter && item.link is Some && item.article_text is None ==> wants_article(
            source,
            &item,
        ),
{
}

/// An item that scores too little is told so with its score first and the threshold of the
/// digest last, whether it is kept, dropped or looked at again.
pub proof fn law_reasons_name_the_score(
    r: ProcessOutcome,
    source: &SourceConfig,
    item: FeedItem,
    filter: &FilterConfig,
    article_failed: bool,
    place: Option<(Real, Seq<char>)>,
)
    requires
        is_judged(r, source, item, filter, article_failed, place),
    ensures
        match r {
            ProcessOutcome::Queued(_) => true,
            ProcessOutcome::Candidate { item, reason } | ProcessOutcome::Dropped { item, reason } =>
                starts_with(reason@, "score "@ + decimal_int(item.score as int) + " below"@)
                    && ends_with(reason@, " "@ + decimal_int(filter.digest_threshold as int)),
            ProcessOutcome::Retry { item, reason } => article_failed && starts_with(
                reason@,
                "article fetch failed"@,
            ) && ends_with(reason@, " "@ + decimal_int(filter.digest_threshold as int)),
        },
{
    reveal_strlit(" below digest threshold ");
    reveal_strlit(" below");
    reveal_strlit(" ");
    reveal_strlit("article fetch failed and ");
    reveal_strlit("article fetch failed");
    let s = "score "@ + decimal_int(place_score(place));
    let mark = " below digest threshold "@;
    let t = decimal_int(filter.digest_threshold as int);
    let all = s + mark + t;
    assert(all == below_threshold(place_score(place), filter.digest_threshold as int));
    assert(mark.take(" below"@.len() as int) == " below"@);
    lemma_reason(s, mark, " below"@, t);
    let failed = "article fetch failed and "@ + all;
    assert(failed.subrange(0, "article fetch failed"@.len() as int) == "article fetch failed"@);
    let end = " "@ + t;
    assert(failed.subrange(failed.len() - end.len(), failed.len() as int) == end) by {
        assert(all.subrange(all.len() - end.len(), all.len() as int) == end);
        assert forall|i: int| 0 <= i < end.len() implies failed[failed.len() - end.len() + i]
            == end[i] by {
            assert(all.subrange(all.len() - end.len(), all.len() as int)[i] == all[all.len()
                - end.len() + i]);
        }
    }
}

proof fn lemma_reason(s: Seq<char>, mark: Seq<char>, start: Seq<char>, t: Seq<char>)
    requires
        mark.len() >= start.len(),
        mark.take(start.len() as int) == start,
        mark.len() > 0,
        mark.last() == ' ',
    ensures
        starts_with(s + mark + t, s + start),
        ends_with(s + mark + t, " "@ + t),
{
    reveal_strlit(" ");
    let all = s + mark + t;
    let front = s + start;
    assert forall|i: int| 0 <= i < front.len() implies all[i] == front[i] by {
        if i >= s.len() {
            assert(mark.take(start.len() as int)[i - s.len()] == mark[i - s.len()]);
        }
    }
    assert(all.subrange(0, front.len() as int) == front);
    let end = " "@ + t;
    assert(all.subrange(all.len() - end.len(), all.len() as int) == end);
}

/// An article is fetched for an item that has a link but no article yet, from a source whose
/// items are filtered or have a place of their own, and for no other.
pub proof fn law_missing_articles_are_fetched(source: &SourceConfig, item: &FeedItem)
    ensures
        item.article_text is Some ==> !wants_article(source, item),
        item.link is None ==> !wants_article(source, item),
        item.article_text is None && item.link is Some ==> (wants_article(source, item)
            <==> source.filter || source.base_implied_meters is Some),
{
}

/// The place that a source stands for is called by the city in which streets are looked up, or
/// by the name of the source: always where it is not filtered, and else where there is no city.
pub proof fn law_sources_stand_for_their_place(source: &SourceConfig, geocode_city: Seq<char>)
    ensures
        base_place(source, geocode_city) is Some <==> source.base_implied_meters is Some,
        base_place(source, geocode_city) matches Some((meters, label)) ==> {
            &&& Some(meters) == source.base_implied_meters
            &&& !source.filter || city_of(geocode_city) is None ==> label == source.name@
            &&& source.filter ==> (city_of(geocode_city) matches Some(city) ==> label == city)
        },
{
}

} // verus!

//! Which items matter, and how far away they are by what they mention.

use vstd::prelude::*;

use crate::config::{AreaGroup, FilterConfig, PlaceConfig};
use crate::ieee::{law_fractions_are_cut_off, one, Real};
use crate::item::{as_str_opt, text_of, FeedItem};
use crate::num::{decimal, decimal_of};
use crate::text::{append, append_str, chars_of, contains_str, lowercase, occurs, string_of};
use crate::words::{first_relevant_article_text, normalize, normalized, relevant};

verus! {

// ---------------------------------------------------------------------------
// Keywords
// ---------------------------------------------------------------------------

/// The texts of an item, with spaces between them.
pub open spec fn spaced(title: Seq<char>, description: Seq<char>, article: Seq<char>) -> Seq<char> {
    title + " "@ + description + " "@ + article
}

/// Whether one of the terms stands in a text in normal spelling.
pub open spec fn mentions(text: Seq<char>, terms: Seq<Seq<char>>) -> bool {
    exists|i: int| 0 <= i < terms.len() && occurs(text, normalized(#[trigger] terms[i]))
}

/// The first of the terms, from `from` on, that stands in a text in normal
/// spelling.
pub open spec fn first_mentioned(text: Seq<char>, terms: Seq<Seq<char>>, from: int) -> Option<int>
    decreases terms.len() - from,
{
    if from < 0 || from >= terms.len() {
        None
    } else if occurs(text, normalized(terms[from])) {
        Some(from)
    } else {
        first_mentioned(text, terms, from + 1)
    }
}

/// A term that was found and how far away its area is, for the log.
pub open spec fn found_text(term: Seq<char>, meters: Real) -> Seq<char> {
    "\""@ + term + "\" ("@ + decimal(meters.truncated() as nat) + "m)"@
}

/// The nearest of the first `n` areas of which a term was found, with that
/// term, and all terms that were found. `found` gives the term for each area.
/// Of areas that are equally near the first one counts.
pub open spec fn nearest_upto(areas: Seq<AreaGroup>, found: Seq<Option<usize>>, n: int) -> (
    Option<(Real, Seq<char>)>,
    Seq<Seq<char>>,
)
    decreases n,
{
    if n <= 0 {
        (None, seq![])
    } else {
        let (best, matched) = nearest_upto(areas, found, n - 1);
        match found[n - 1] {
            None => (best, matched),
            Some(i) => {
                let term = areas[n - 1].terms@[i as int]@;
                let meters = areas[n - 1].implied_meters;
                let nearer = match best {
                    None => true,
                    Some((d, _)) => meters.less(d),
                };
                (
                    if nearer {
                        Some((meters, term))
                    } else {
                        best
                    },
                    matched.push(found_text(term, meters)),
                )
            },
        }
    }
}

fn mentions_one(text: &[char], terms: &[String]) -> (r: bool)
    ensures
        r == mentions(text@, terms.deep_view()),
{
    let n: usize = terms.len();
    let mut i: usize = 0;
    while i < n
        invariant
            0 <= i <= n,
            n == terms@.len(),
            forall|j: int|
                0 <= j < i ==> !occurs(text@, normalized(#[trigger] terms.deep_view()[j])),
        decreases n - i,
    {
        let term = normalize(terms[i].as_str());
        if contains_str(text, term.as_str()) {
            assert(occurs(text@, normalized(terms.deep_view()[i as int])));
            return true;
        }
        i += 1;
    }
    false
}

fn first_mentioned_of(text: &[char], terms: &Vec<String>) -> (r: Option<usize>)
    ensures
        match r {
            Some(i) => first_mentioned(text@, terms.deep_view(), 0) == Some(i as int) && i
                < terms@.len(),
            None => first_mentioned(text@, terms.deep_view(), 0) is None,
        },
{
    let n: usize = terms.len();
    let mut i: usize = 0;
    assert(terms.deep_view().len() == n);
    while i < n
        invariant
            0 <= i <= n,
            n == terms@.len(),
            terms.deep_view().len() == n,
            first_mentioned(text@, terms.deep_view(), 0) == first_mentioned(
                text@,
                terms.deep_view(),
                i as int,
            ),
        decreases n - i,
    {
        assert(terms.deep_view()[i as int] == terms@[i as int]@);
        let term = normalize(terms[i].as_str());
        if contains_str(text, term.as_str()) {
            return Some(i);
        }
        i += 1;
    }
    None
}

/// The nearest of the areas of which a term was found, with that term, and all
/// terms that were found.
pub fn nearest_area(areas: &[AreaGroup], found: &[Option<usize>]) -> (r: (
    Option<(Real, String)>,
    Vec<String>,
))
    requires
        found@.len() == areas@.len(),
        forall|k: int|
            0 <= k < found@.len() ==> match (#[trigger] found@[k]) {
                Some(i) => i < areas@[k].terms@.len(),
                None => true,
            },
    ensures
        place_view(r.0) == nearest_upto(areas@, found@, areas@.len() as int).0,
        r.1.deep_view() == nearest_upto(areas@, found@, areas@.len() as int).1,
{
    let n: usize = areas.len();
    let mut best: Option<(Real, String)> = None;
    let mut matched: Vec<String> = Vec::new();
    let mut k: usize = 0;
    assert(matched.deep_view() == Seq::<Seq<char>>::empty());
    while k < n
        invariant
            0 <= k <= n,
            n == areas@.len(),
            found@.len() == areas@.len(),
            forall|j: int|
                0 <= j < found@.len() ==> match (#[trigger] found@[j]) {
                    Some(i) => i < areas@[j].terms@.len(),
                    None => true,
                },
            place_view(best) == nearest_upto(areas@, found@, k as int).0,
            matched.deep_view() == nearest_upto(areas@, found@, k as int).1,
        decreases n - k,
    {
        let ghost before = matched.deep_view();
        match found[k] {
            None => {},
            Some(i) => {
                let term = &areas[k].terms[i];
                let meters = areas[k].implied_meters;
                let mut line: Vec<char> = Vec::new();
                append_str(&mut line, "\"");
                append_str(&mut line, term.as_str());
                append_str(&mut line, "\" (");
                let digits = decimal_of(meters.truncate() as u64);
                append(&mut line, digits.as_slice());
                append_str(&mut line, "m)");
                assert(line@ == found_text(term@, meters));
                let text = string_of(line.as_slice());
                matched.push(text);
                assert(matched.deep_view() == before.push(text@)) by {
                    assert(text.deep_view() == text@);
                }
                let nearer = match &best {
                    None => true,
                    Some((d, _)) => meters.lt(*d),
                };
                if nearer {
                    best = Some((meters, term.clone()));
                }
            },
        }
        k += 1;
    }
    (best, matched)
}

/// A distance and the place that it is that of.
pub open spec fn place_view(p: Option<(Real, String)>) -> Option<(Real, Seq<char>)> {
    match p {
        Some((m, label)) => Some((m, label@)),
        None => None,
    }
}

/// Whether the keywords let an item pass: none of the blocked ones is in it, and
/// one of the required ones is, if there are any.
pub open spec fn passes(text: Seq<char>, filter: &FilterConfig, required: Seq<Seq<char>>) -> bool {
    &&& !mentions(text, filter.blocklist.deep_view())
    &&& required.len() == 0 || mentions(text, required)
}

/// The text of an item in which keywords are looked for.
pub open spec fn keyword_text(item: &FeedItem) -> Seq<char> {
    normalized(spaced(item.title@, text_of(item.description), text_of(item.article_text)))
}

/// The terms of the areas that are found in an item.
pub open spec fn area_finds(text: Seq<char>, areas: Seq<AreaGroup>) -> Seq<Option<usize>> {
    Seq::new(
        areas.len(),
        |k: int|
            match first_mentioned(text, areas[k].terms.deep_view(), 0) {
                Some(i) => Some(i as usize),
                None => None,
            },
    )
}

/// Whether a blocked term stands in an item.
pub fn blocked(item: &FeedItem, filter: &FilterConfig) -> (r: bool)
    ensures
        r == mentions(keyword_text(item), filter.blocklist.deep_view()),
{
    let raw = spaced_text(
        item.title.as_str(),
        as_str_opt(&item.description),
        as_str_opt(&item.article_text),
    );
    let text = normalize(raw.as_str());
    let c = chars_of(text.as_str());
    mentions_one(c.as_slice(), filter.blocklist.as_slice())
}

/// Looks at the keywords of an item. `None` says that the item is dropped. Else
/// the nearest area that is mentioned comes back, with the term that it was
/// recognised by, and all terms that were found.
pub fn keyword_check(item: &FeedItem, filter: &FilterConfig, required: &[String]) -> (r: Option<
    (Option<(Real, String)>, Vec<String>),
>)
    ensures
        r is Some <==> passes(keyword_text(item), filter, required.deep_view()),
        match r {
            Some((best, matched)) => {
                let found = area_finds(keyword_text(item), filter.area@);
                let nearest = nearest_upto(filter.area@, found, filter.area@.len() as int);
                place_view(best) == nearest.0 && matched.deep_view() == nearest.1
            },
            None => true,
        },
{
    let raw = spaced_text(
        item.title.as_str(),
        as_str_opt(&item.description),
        as_str_opt(&item.article_text),
    );
    let text = normalize(raw.as_str());
    let c = chars_of(text.as_str());
    assert(c@ == keyword_text(item));
    assert(required.deep_view().len() == required@.len());
    if mentions_one(c.as_slice(), filter.blocklist.as_slice()) {
        return None;
    }
    if required.len() > 0 && !mentions_one(c.as_slice(), required) {
        return None;
    }
    let n: usize = filter.area.len();
    let mut found: Vec<Option<usize>> = Vec::new();
    let mut k: usize = 0;
    while k < n
        invariant
            0 <= k <= n,
            n == filter.area@.len(),
            c@ == keyword_text(item),
            found@.len() == k,
            forall|j: int|
                0 <= j < k ==> match (#[trigger] found@[j]) {
                    Some(i) => first_mentioned(c@, filter.area@[j].terms.deep_view(), 0) == Some(
                        i as int,
                    ) && i < filter.area@[j].terms@.len(),
                    None => first_mentioned(c@, filter.area@[j].terms.deep_view(), 0) is None,
                },
        decreases n - k,
    {
        let hit = first_mentioned_of(c.as_slice(), &filter.area[k].terms);
        found.push(hit);
        k += 1;
    }
    assert(found@ =~= area_finds(c@, filter.area@));
    Some(nearest_area(filter.area.as_slice(), found.as_slice()))
}

/// The texts of an item, with spaces between them.
fn spaced_text(title: &str, description: Option<&str>, article: Option<&str>) -> (r: String)
    ensures
        r@ == spaced(
            title@,
            crate::streets::text_or_empty(description),
            crate::streets::text_or_empty(article),
        ),
{
    let mut out: Vec<char> = Vec::new();
    append_str(&mut out, title);
    append_str(&mut out, " ");
    if let Some(d) = description {
        append_str(&mut out, d);
    }
    append_str(&mut out, " ");
    if let Some(a) = article {
        append_str(&mut out, a);
    }
    assert(out@ == spaced(
        title@,
        crate::streets::text_or_empty(description),
        crate::streets::text_or_empty(article),
    ));
    string_of(out.as_slice())
}

// ---------------------------------------------------------------------------
// Places
// ---------------------------------------------------------------------------

/// What a place is called: its name and its aliases.
pub open spec fn place_terms(place: PlaceConfig) -> Seq<Seq<char>> {
    seq![place.name@] + place.aliases.deep_view()
}

/// The text of an item in which places are looked for.
pub open spec fn place_text(item: &FeedItem) -> Seq<char> {
    let article = match item.article_text {
        Some(a) => relevant(a@, lowercase(a@)),
        None => seq![],
    };
    normalized(spaced(item.title@, text_of(item.description), article))
}

/// The nearest of the first `n` places that are mentioned. Of places that are
/// equally near the first one counts.
pub open spec fn nearest_place(
    mentioned: Seq<bool>,
    places: Seq<PlaceConfig>,
    distances: Seq<Real>,
    n: int,
) -> Option<(Real, Seq<char>)>
    decreases n,
{
    if n <= 0 {
        None
    } else {
        let best = nearest_place(mentioned, places, distances, n - 1);
        if !mentioned[n - 1] {
            best
        } else {
            match best {
                Some((d, _)) => if distances[n - 1].less(d) {
                    Some((distances[n - 1], places[n - 1].name@))
                } else {
                    best
                },
                None => Some((distances[n - 1], places[n - 1].name@)),
            }
        }
    }
}

/// Which places are mentioned in a text in normal spelling.
pub open spec fn places_mentioned(text: Seq<char>, places: Seq<PlaceConfig>) -> Seq<bool> {
    Seq::new(places.len(), |k: int| mentions(text, place_terms(places[k])))
}

/// The nearest of the places that are mentioned, given which those are.
pub fn nearest_mentioned_place(
    mentioned: &[bool],
    places: &[PlaceConfig],
    distances: &[Real],
) -> (r: Option<(Real, String)>)
    requires
        mentioned@.len() == places@.len(),
        distances@.len() == places@.len(),
    ensures
        place_view(r) == nearest_place(
            mentioned@,
            places@,
            distances@,
            places@.len() as int,
        ),
{
    let n: usize = places.len();
    let mut best: Option<(Real, String)> = None;
    let mut k: usize = 0;
    while k < n
        invariant
            0 <= k <= n,
            n == places@.len(),
            mentioned@.len() == n,
            distances@.len() == n,
            place_view(best) == nearest_place(mentioned@, places@, distances@, k as int),
        decreases n - k,
    {
        if mentioned[k] {
            let nearer = match &best {
                Some((d, _)) => distances[k].lt(*d),
                None => true,
            };
            if nearer {
                best = Some((distances[k], places[k].name.clone()));
            }
        }
        k += 1;
    }
    best
}

fn place_is_mentioned(text: &[char], place: &PlaceConfig) -> (r: bool)
    ensures
        r == mentions(text@, place_terms(*place)),
{
    let ghost terms = place_terms(*place);
    let ghost aliases = place.aliases.deep_view();
    let name = normalize(place.name.as_str());
    if contains_str(text, name.as_str()) {
        assert(terms[0] == place.name@);
        assert(occurs(text@, normalized(terms[0])));
        return true;
    }
    let r = mentions_one(text, place.aliases.as_slice());
    proof {
        if r {
            let i = choose|i: int|
                0 <= i < aliases.len() && occurs(text@, normalized(#[trigger] aliases[i]));
            assert(terms[i + 1] == aliases[i]);
        } else {
            assert forall|i: int| 0 <= i < terms.len() implies !occurs(
                text@,
                normalized(#[trigger] terms[i]),
            ) by {
                if i > 0 {
                    assert(terms[i] == aliases[i - 1]);
                }
            }
        }
    }
    r
}

/// The nearest of the configured places that an item mentions, given how far
/// away they are; none where there is no reference point to measure from.
pub fn find_configured_place_distance(
    item: &FeedItem,
    filter: &FilterConfig,
    distances: Option<&[Real]>,
) -> (r: Option<(Real, String)>)
    requires
        match distances {
            Some(d) => d@.len() == filter.places@.len(),
            None => true,
        },
    ensures
        place_view(r) == match distances {
            Some(d) => nearest_place(
                places_mentioned(place_text(item), filter.places@),
                filter.places@,
                d@,
                filter.places@.len() as int,
            ),
            None => None,
        },
{
    let d = match distances {
        Some(d) => d,
        None => {
            return None;
        },
    };
    let article = first_relevant_article_text(as_str_opt(&item.article_text));
    let raw = spaced_text(
        item.title.as_str(),
        as_str_opt(&item.description),
        Some(article),
    );
    let text = normalize(raw.as_str());
    let c = chars_of(text.as_str());
    assert(c@ == place_text(item));
    let n: usize = filter.places.len();
    let mut mentioned: Vec<bool> = Vec::new();
    let mut k: usize = 0;
    while k < n
        invariant
            0 <= k <= n,
            n == filter.places@.len(),
            c@ == place_text(item),
            mentioned@.len() == k,
            forall|j: int|
                0 <= j < k ==> #[trigger] mentioned@[j] == mentions(
                    c@,
                    place_terms(filter.places@[j]),
                ),
        decreases n - k,
    {
        let m = place_is_mentioned(c.as_slice(), &filter.places[k]);
        mentioned.push(m);
        k += 1;
    }
    assert(mentioned@ =~= places_mentioned(c@, filter.places@));
    nearest_mentioned_place(mentioned.as_slice(), filter.places.as_slice(), d)
}

// ---------------------------------------------------------------------------
// Laws
// ---------------------------------------------------------------------------

/// The area that counts is the nearest one of which a term was found, as long as
/// the distances are numbers; and there is one if a term was found.
pub proof fn law_nearest_area_counts(
    areas: Seq<AreaGroup>,
    found: Seq<Option<usize>>,
    n: int,
    k: int,
)
    requires
        0 <= k < n <= areas.len(),
        found.len() == areas.len(),
        found[k] is Some,
        forall|i: int| 0 <= i < areas.len() ==> !(#[trigger] areas[i]).implied_meters.is_nan(),
    ensures
        nearest_upto(areas, found, n).0 matches Some(best) && !best.0.is_nan() && best.0.value()
            <= areas[k].implied_meters.value(),
    decreases n,
{
    if k < n - 1 {
        law_nearest_area_counts(areas, found, n - 1, k);
    } else if n > 1 {
        lemma_area_is_measured(areas, found, n - 1);
    }
}

proof fn lemma_area_is_measured(areas: Seq<AreaGroup>, found: Seq<Option<usize>>, n: int)
    requires
        0 <= n <= areas.len(),
        forall|i: int| 0 <= i < areas.len() ==> !(#[trigger] areas[i]).implied_meters.is_nan(),
    ensures
        nearest_upto(areas, found, n).0 matches Some(best) ==> !best.0.is_nan(),
    decreases n,
{
    if n > 0 {
        lemma_area_is_measured(areas, found, n - 1);
    }
}

/// The configured place that counts is the nearest one that is mentioned, as long
/// as the distances are numbers; and there is one if one is mentioned.
pub proof fn law_nearest_place_counts(
    mentioned: Seq<bool>,
    places: Seq<PlaceConfig>,
    distances: Seq<Real>,
    n: int,
    k: int,
)
    requires
        0 <= k < n <= places.len(),
        mentioned.len() == places.len(),
        distances.len() == places.len(),
        mentioned[k],
        forall|i: int| 0 <= i < distances.len() ==> !(#[trigger] distances[i]).is_nan(),
    ensures
        nearest_place(mentioned, places, distances, n) matches Some(best) && !best.0.is_nan()
            && best.0.value() <= distances[k].value(),
    decreases n,
{
    if k < n - 1 {
        law_nearest_place_counts(mentioned, places, distances, n - 1, k);
    } else if n > 1 {
        lemma_place_is_measured(mentioned, places, distances, n - 1);
    }
}

proof fn lemma_place_is_measured(
    mentioned: Seq<bool>,
    places: Seq<PlaceConfig>,
    distances: Seq<Real>,
    n: int,
)
    requires
        0 <= n <= distances.len(),
        forall|i: int| 0 <= i < distances.len() ==> !(#[trigger] distances[i]).is_nan(),
    ensures
        nearest_place(mentioned, places, distances, n) matches Some(best) ==> !best.0.is_nan(),
    decreases n,
{
    if n > 0 {
        lemma_place_is_measured(mentioned, places, distances, n - 1);
    }
}

/// An item without a blocked term passes if any of the required terms, wherever it is listed,
/// stands in its title, description and article in normal spelling.
pub proof fn law_any_required_term_is_enough(
    item: &FeedItem,
    filter: &FilterConfig,
    required: Seq<Seq<char>>,
    i: int,
)
    requires
        0 <= i < required.len(),
        forall|j: int|
            0 <= j < filter.blocklist@.len() ==> !occurs(
                normalized(
                    item.title@ + " "@ + text_of(item.description) + " "@ + text_of(
                        item.article_text,
                    ),
                ),
                normalized((#[trigger] filter.blocklist@[j])@),
            ),
        occurs(
            normalized(
                item.title@ + " "@ + text_of(item.description) + " "@ + text_of(item.article_text),
            ),
            normalized(required[i]),
        ),
    ensures
        passes(keyword_text(item), filter, required),
{
    let blocked_terms = filter.blocklist.deep_view();
    assert forall|j: int| 0 <= j < blocked_terms.len() implies !occurs(
        keyword_text(item),
        normalized(#[trigger] blocked_terms[j]),
    ) by {
        assert(blocked_terms[j] == filter.blocklist@[j]@);
    }
}

/// No item passes with a blocked term in it, wherever that is listed, or without one of the
/// required terms where there are any; without required terms every other item passes.
pub proof fn law_terms_decide(item: &FeedItem, filter: &FilterConfig, required: Seq<Seq<char>>)
    ensures
        forall|j: int|
            0 <= j < filter.blocklist@.len() && occurs(
                normalized(
                    item.title@ + " "@ + text_of(item.description) + " "@ + text_of(
                        item.article_text,
                    ),
                ),
                normalized((#[trigger] filter.blocklist@[j])@),
            ) ==> !passes(keyword_text(item), filter, required),
        required.len() > 0 && (forall|i: int|
            0 <= i < required.len() ==> !occurs(
                normalized(
                    item.title@ + " "@ + text_of(item.description) + " "@ + text_of(
                        item.article_text,
                    ),
                ),
                normalized(#[trigger] required[i]),
            )) ==> !passes(keyword_text(item), filter, required),
        required.len() == 0 && filter.blocklist@.len() == 0 ==> passes(
            keyword_text(item),
            filter,
            required,
        ),
        text_of(item.description) == (match item.description {
            Some(d) => d@,
            None => seq![],
        }),
        text_of(item.article_text) == (match item.article_text {
            Some(a) => a@,
            None => seq![],
        }),
{
    let blocked_terms = filter.blocklist.deep_view();
    assert forall|j: int|
        0 <= j < filter.blocklist@.len() && occurs(
            keyword_text(item),
            normalized((#[trigger] filter.blocklist@[j])@),
        ) implies !passes(keyword_text(item), filter, required) by {
        assert(blocked_terms[j] == filter.blocklist@[j]@);
        assert(occurs(keyword_text(item), normalized(blocked_terms[j])));
    }
}

proof fn lemma_mentions_permuted(text: Seq<char>, a: Seq<Seq<char>>, b: Seq<Seq<char>>)
    requires
        a.to_multiset() == b.to_multiset(),
    ensures
        mentions(text, a) ==> mentions(text, b),
{
    broadcast use vstd::seq_lib::group_to_multiset_ensures;

    if mentions(text, a) {
        let i = choose|i: int| 0 <= i < a.len() && occurs(text, normalized(#[trigger] a[i]));
        assert(a.contains(a[i]));
        assert(b.to_multiset().count(a[i]) > 0);
        assert(b.contains(a[i]));
        let j = choose|j: int| 0 <= j < b.len() && b[j] == a[i];
        assert(occurs(text, normalized(b[j])));
    }
}

/// The order in which terms are listed does not matter: neither that of the required ones nor
/// that of the blocked ones.
pub proof fn law_order_of_terms_is_free(
    text: Seq<char>,
    filter: &FilterConfig,
    other: &FilterConfig,
    required: Seq<Seq<char>>,
    permuted: Seq<Seq<char>>,
)
    requires
        required.to_multiset() == permuted.to_multiset(),
        filter.blocklist.deep_view().to_multiset() == other.blocklist.deep_view().to_multiset(),
    ensures
        passes(text, filter, required) == passes(text, other, permuted),
{
    broadcast use vstd::seq_lib::group_to_multiset_ensures;

    lemma_mentions_permuted(text, required, permuted);
    lemma_mentions_permuted(text, permuted, required);
    lemma_mentions_permuted(text, filter.blocklist.deep_view(), other.blocklist.deep_view());
    lemma_mentions_permuted(text, other.blocklist.deep_view(), filter.blocklist.deep_view());
    assert(required.to_multiset().len() == required.len());
    assert(permuted.to_multiset().len() == permuted.len());
}

proof fn lemma_first_mentioned(text: Seq<char>, terms: Seq<Seq<char>>, from: int)
    requires
        0 <= from,
    ensures
        match first_mentioned(text, terms, from) {
            Some(i) => from <= i < terms.len() && occurs(text, normalized(terms[i])) && forall|j: int|
                from <= j < i ==> !occurs(text, normalized(#[trigger] terms[j])),
            None => forall|j: int|
                from <= j < terms.len() ==> !occurs(text, normalized(#[trigger] terms[j])),
        },
    decreases terms.len() - from,
{
    if from < terms.len() && !occurs(text, normalized(terms[from])) {
        lemma_first_mentioned(text, terms, from + 1);
    }
}

/// An area is found in a text by any of its terms, wherever it is listed, and by none but its
/// own; it is the first of those in the text that it is recognised by.
pub proof fn law_areas_are_found_by_their_terms(text: Seq<char>, areas: Seq<AreaGroup>, k: int)
    requires
        0 <= k < areas.len(),
    ensures
        area_finds(text, areas).len() == areas.len(),
        match area_finds(text, areas)[k] {
            Some(i) => i < areas[k].terms@.len() && occurs(text, normalized(areas[k].terms@[i as int]@))
                && forall|j: int|
                0 <= j < i ==> !occurs(text, normalized((#[trigger] areas[k].terms@[j])@)),
            None => forall|j: int|
                0 <= j < areas[k].terms@.len() ==> !occurs(
                    text,
                    normalized((#[trigger] areas[k].terms@[j])@),
                ),
        },
{
    let terms = areas[k].terms.deep_view();
    lemma_first_mentioned(text, terms, 0);
    assert forall|j: int| 0 <= j < terms.len() implies terms[j] == (
    #[trigger] areas[k].terms@[j])@ by {}
    assert(areas[k].terms@.len() == areas[k].terms.len());
}

/// The area that counts is one of which a term was found: its distance comes back with that
/// term, and each term that was found is listed.
pub proof fn law_area_comes_with_its_term(areas: Seq<AreaGroup>, found: Seq<Option<usize>>, n: int)
    requires
        0 <= n <= areas.len(),
        found.len() == areas.len(),
    ensures
        match nearest_upto(areas, found, n).0 {
            Some((meters, term)) => exists|k: int|
                0 <= k < n && (#[trigger] found[k]) is Some && meters == areas[k].implied_meters
                    && term == areas[k].terms@[found[k]->0 as int]@,
            None => forall|k: int| 0 <= k < n ==> (#[trigger] found[k]) is None,
        },
        nearest_upto(areas, found, n).1.len() <= n,
        forall|k: int|
            0 <= k < n && (#[trigger] found[k]) is Some ==> nearest_upto(
                areas,
                found,
                n,
            ).1.contains(found_text(areas[k].terms@[found[k]->0 as int]@, areas[k].implied_meters)),
    decreases n,
{
    if n > 0 {
        law_area_comes_with_its_term(areas, found, n - 1);
        let before = nearest_upto(areas, found, n - 1).1;
        let all = nearest_upto(areas, found, n).1;
        assert forall|k: int| 0 <= k < n && (#[trigger] found[k]) is Some implies all.contains(
            found_text(areas[k].terms@[found[k]->0 as int]@, areas[k].implied_meters),
        ) by {
            let line = found_text(areas[k].terms@[found[k]->0 as int]@, areas[k].implied_meters);
            if k < n - 1 {
                let i = choose|i: int| 0 <= i < before.len() && before[i] == line;
                assert(all[i] == line);
            } else {
                assert(all[before.len() as int] == line);
            }
        }
    }
}

/// A place is mentioned exactly if its name or one of its aliases stands in the text in normal
/// spelling, and the place that counts is one that is mentioned, with its own distance.
pub proof fn law_places_go_by_their_names(
    text: Seq<char>,
    places: Seq<PlaceConfig>,
    distances: Seq<Real>,
    n: int,
)
    requires
        0 <= n <= places.len(),
        distances.len() == places.len(),
    ensures
        places_mentioned(text, places).len() == places.len(),
        forall|k: int|
            0 <= k < places.len() ==> (#[trigger] places_mentioned(text, places)[k] <==> occurs(
                text,
                normalized(places[k].name@),
            ) || exists|j: int|
                0 <= j < places[k].aliases@.len() && occurs(
                    text,
                    normalized((#[trigger] places[k].aliases@[j])@),
                )),
        match nearest_place(places_mentioned(text, places), places, distances, n) {
            Some((meters, name)) => exists|k: int|
                0 <= k < n && #[trigger] places_mentioned(text, places)[k] && meters
                    == distances[k] && name == places[k].name@,
            None => forall|k: int| 0 <= k < n ==> !#[trigger] places_mentioned(text, places)[k],
        },
    decreases n,
{
    let all = places_mentioned(text, places);
    assert forall|k: int| 0 <= k < places.len() implies (#[trigger] all[k] <==> occurs(
        text,
        normalized(places[k].name@),
    ) || exists|j: int|
        0 <= j < places[k].aliases@.len() && occurs(
            text,
            normalized((#[trigger] places[k].aliases@[j])@),
        )) by {
        let terms = place_terms(places[k]);
        let aliases = places[k].aliases.deep_view();
        assert(terms[0] == places[k].name@);
        assert forall|j: int| 0 <= j < aliases.len() implies terms[j + 1] == (
        #[trigger] places[k].aliases@[j])@ by {
            assert(terms[j + 1] == aliases[j]);
        }
        if mentions(text, terms) {
            let i = choose|i: int|
                0 <= i < terms.len() && occurs(text, normalized(#[trigger] terms[i]));
            if i > 0 {
                assert(terms[i] == places[k].aliases@[i - 1]@);
            }
        }
        if occurs(text, normalized(places[k].name@)) {
            assert(occurs(text, normalized(terms[0])));
        }
        if exists|j: int|
            0 <= j < places[k].aliases@.len() && occurs(
                text,
                normalized((#[trigger] places[k].aliases@[j])@),
            ) {
            let j = choose|j: int|
                0 <= j < places[k].aliases@.len() && occurs(
                    text,
                    normalized((#[trigger] places[k].aliases@[j])@),
                );
            assert(occurs(text, normalized(terms[j + 1])));
        }
    }
    if n > 0 {
        law_places_go_by_their_names(text, places, distances, n - 1);
    }
}

/// The text of an item in which places are looked for is made of its title, its description
/// and its article above the boilerplate.
pub proof fn law_places_are_looked_for_everywhere(item: &FeedItem)
    ensures
        item.article_text matches Some(a) ==> place_text(item) == normalized(
            item.title@ + " "@ + text_of(item.description) + " "@ + relevant(a@, lowercase(a@)),
        ),
        item.article_text is None ==> place_text(item) == normalized(
            item.title@ + " "@ + text_of(item.description) + " "@,
        ),
{
    let head = item.title@ + " "@ + text_of(item.description) + " "@;
    assert(head + Seq::<char>::empty() == head);
}

/// A term that was found is listed with the whole metres of its area.
pub proof fn law_found_terms_are_shown(term: Seq<char>, meters: Real, n: nat)
    requires
        n <= 0xffff_ffff,
        n * one() <= meters.value() < (n + 1) * one(),
        !meters.negative(),
        !meters.is_nan(),
    ensures
        found_text(term, meters) == "\""@ + term + "\" ("@ + decimal(n) + "m)"@,
{
    law_fractions_are_cut_off(meters, n as int);
}

} // verus!

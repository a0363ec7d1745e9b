//! Looking streets up: what is asked, and what the answers say.

use vstd::prelude::*;

use crate::config::{city_name, city_of};
use crate::distance::in_geocode_range;
use crate::filter::place_view;
use crate::ieee::Real;
use crate::item::copy_text;
use crate::json::{
    document, document_in, items_in, json_of_value, member, member_notation, notation,
    text_in, value_from_text, Json,
};
use crate::streets::{evidence_view, short_label, short_location_label, StreetEvidence};
use crate::text::{append_str, chars_of, contains_str, occurs, occurs_at, string_of};
use crate::url::{url_encode, url_encoded};
use crate::words::{normalize, normalized};

verus! {

// ---------------------------------------------------------------------------
// Requests
// ---------------------------------------------------------------------------

/// What is looked up: the query, in the city if there is one.
pub open spec fn full_query(query: Seq<char>, city: Seq<char>) -> Seq<char> {
    if city.len() == 0 {
        query
    } else {
        query + ", "@ + city
    }
}

/// The address that answers come from.
pub open spec fn search_url(query: Seq<char>, city: Seq<char>) -> Seq<char> {
    "https://nominatim.openstreetmap.org/search?q="@ + url_encoded(full_query(query, city))
        + "&format=json&addressdetails=1&limit=5"@
}

/// The address that the answer to a query comes from.
pub fn geocode_url(query: &str, city: &str) -> (r: String)
    ensures
        r@ == search_url(query@, city@),
{
    let mut full = query.to_owned();
    if !city.is_empty() {
        full.append(", ");
        full.append(city);
    }
    assert(full@ =~= full_query(query@, city@));
    let mut out = "https://nominatim.openstreetmap.org/search?q=".to_owned();
    out.append(url_encode(full.as_str()).as_str());
    out.append("&format=json&addressdetails=1&limit=5");
    out
}

// ---------------------------------------------------------------------------
// Answers
// ---------------------------------------------------------------------------

/// A place in an answer, with its coordinates as they are written.
pub struct GeocodeRow {
    /// The latitude.
    pub lat: String,
    /// The longitude.
    pub lon: String,
    /// The address.
    pub display_name: Option<String>,
}

/// What a row says.
pub open spec fn row_view(r: GeocodeRow) -> (Seq<char>, Seq<char>, Option<Seq<char>>) {
    (r.lat@, r.lon@, r.display_name.deep_view())
}

/// What rows say.
pub open spec fn rows_view(s: Seq<GeocodeRow>) -> Seq<
    (Seq<char>, Seq<char>, Option<Seq<char>>),
> {
    s.map_values(|r: GeocodeRow| row_view(r))
}

/// The text of a place in which the city is looked for, given its address as text.
pub open spec fn haystack(result: Json, address: Seq<char>) -> Seq<char> {
    (match text_in(member(result, "display_name"@)) {
        Some(n) => n,
        None => seq![],
    }) + " "@ + address
}

/// Whether a place is in the city, if there is one.
pub open spec fn is_in_city(result: Json, address: Seq<char>, city: Seq<char>) -> bool {
    match city_of(city) {
        Some(anchor) => occurs(normalized(haystack(result, address)), normalized(anchor)),
        None => true,
    }
}

/// The row for a place, if it is in the city and has coordinates.
pub open spec fn row_of(result: Json, address: Seq<char>, city: Seq<char>) -> Option<
    (Seq<char>, Seq<char>, Option<Seq<char>>),
> {
    match (text_in(member(result, "lat"@)), text_in(member(result, "lon"@))) {
        (Some(lat), Some(lon)) => if is_in_city(result, address, city) {
            Some((lat, lon, text_in(member(result, "display_name"@))))
        } else {
            None
        },
        _ => None,
    }
}

/// The rows for the first `n` places, given their addresses as text.
pub open spec fn rows_upto(
    results: Seq<Json>,
    addresses: Seq<Seq<char>>,
    city: Seq<char>,
    n: int,
) -> Seq<(Seq<char>, Seq<char>, Option<Seq<char>>)>
    decreases n,
{
    if n <= 0 {
        seq![]
    } else {
        let before = rows_upto(results, addresses, city, n - 1);
        match row_of(results[n - 1], addresses[n - 1], city) {
            Some(row) => before.push(row),
            None => before,
        }
    }
}

/// The addresses of places as text.
pub open spec fn addresses_of(results: Seq<Json>) -> Seq<Seq<char>> {
    results.map_values(|r: Json| notation(member(r, "address"@)))
}

/// The rows for the places of an answer; none where it is no list.
pub open spec fn rows_of(answer: Json, city: Seq<char>) -> Seq<
    (Seq<char>, Seq<char>, Option<Seq<char>>),
> {
    match items_in(answer) {
        Some(items) => rows_upto(items, addresses_of(items), city, items.len() as int),
        None => seq![],
    }
}

fn copy_str(s: Option<&str>) -> (r: Option<String>)
    ensures
        r.deep_view() == crate::item::str_view(s),
{
    match s {
        Some(t) => Some(t.to_owned()),
        None => None,
    }
}

/// The rows for places, given their addresses as text.
pub fn rows_in_city(results: &[Json], addresses: &[String], city: &str) -> (r: Vec<GeocodeRow>)
    requires
        addresses@.len() == results@.len(),
    ensures
        rows_view(r@) == rows_upto(
            results@,
            addresses.deep_view(),
            city@,
            results@.len() as int,
        ),
{
    let anchor = match city_name(city) {
        Some(name) => Some(normalize(name.as_str())),
        None => None,
    };
    let mut rows: Vec<GeocodeRow> = Vec::new();
    assert(rows_view(rows@) == Seq::<(Seq<char>, Seq<char>, Option<Seq<char>>)>::empty());
    let n: usize = results.len();
    let mut i: usize = 0;
    while i < n
        invariant
            0 <= i <= n,
            n == results@.len(),
            n == addresses@.len(),
            match anchor {
                Some(a) => city_of(city@) is Some && a@ == normalized(city_of(city@)->0),
                None => city_of(city@) is None,
            },
            rows_view(rows@) == rows_upto(results@, addresses.deep_view(), city@, i as int),
        decreases n - i,
    {
        let result = &results[i];
        let ghost before = rows@;
        let ghost address = addresses@[i as int]@;
        assert(address == addresses.deep_view()[i as int]);
        let display_name = result.text_of("display_name");
        let inside = match &anchor {
            Some(a) => {
                let mut hay: Vec<char> = Vec::new();
                if let Some(name) = display_name {
                    append_str(&mut hay, name);
                }
                append_str(&mut hay, " ");
                append_str(&mut hay, addresses[i].as_str());
                assert(hay@ =~= haystack(*result, address));
                let text = normalize(string_of(hay.as_slice()).as_str());
                contains_str(chars_of(text.as_str()).as_slice(), a.as_str())
            },
            None => true,
        };
        assert(inside == is_in_city(*result, address, city@));
        if inside {
            if let (Some(lat), Some(lon)) = (result.text_of("lat"), result.text_of("lon")) {
                let row = GeocodeRow {
                    lat: lat.to_owned(),
                    lon: lon.to_owned(),
                    display_name: copy_str(display_name),
                };
                rows.push(row);
                assert(rows_view(rows@) == rows_view(before).push(row_view(row)));
            }
        }
        i += 1;
    }
    rows
}

/// Reads an answer: the places in the city that have coordinates, in their
/// order. `None` says that the answer is no document.
pub fn read_geocode_answer(body: &str, city: &str) -> (r: Option<Vec<GeocodeRow>>)
    ensures
        match r {
            Some(rows) => document_in(body@) is Some && rows_view(rows@) == rows_of(
                document_in(body@)->0,
                city@,
            ),
            None => document_in(body@) is None,
        },
{
    let value = match value_from_text(body) {
        Ok(v) => v,
        Err(_) => {
            return None;
        },
    };
    let answer = json_of_value(&value);
    match &answer {
        Json::Array(items) => {
            let n: usize = items.len();
            let mut addresses: Vec<String> = Vec::new();
            let mut i: usize = 0;
            while i < n
                invariant
                    0 <= i <= n,
                    n == items@.len(),
                    answer == Json::Array(*items),
                    answer == document(value),
                    addresses.deep_view() == addresses_of(items@).take(i as int),
                decreases n - i,
            {
                let ghost before = addresses.deep_view();
                let address = member_notation(&value, i, "address");
                assert(address@ == addresses_of(items@)[i as int]);
                addresses.push(address);
                assert(addresses.deep_view() == before.push(address@)) by {
                    assert(address.deep_view() == address@);
                }
                assert(addresses.deep_view() =~= addresses_of(items@).take(i + 1));
                i += 1;
            }
            assert(addresses.deep_view() =~= addresses_of(items@));
            assert(addresses.deep_view().len() == addresses@.len());
            Some(rows_in_city(items.as_slice(), addresses.as_slice(), city))
        },
        _ => {
            let none: Vec<GeocodeRow> = Vec::new();
            assert(rows_view(none@) == Seq::<(Seq<char>, Seq<char>, Option<Seq<char>>)>::empty());
            Some(none)
        },
    }
}

/// A place that was found.
pub struct GeocodeHit {
    /// The latitude.
    pub lat: Real,
    /// The longitude.
    pub lon: Real,
    /// The address.
    pub display_name: Option<String>,
}

/// The first of the rows, from `from` on, whose coordinates are numbers.
pub open spec fn first_located(coords: Seq<(Option<Real>, Option<Real>)>, from: int) -> Option<int>
    decreases coords.len() - from,
{
    if from < 0 || from >= coords.len() {
        None
    } else if coords[from].0 is Some && coords[from].1 is Some {
        Some(from)
    } else {
        first_located(coords, from + 1)
    }
}

/// The first of the rows whose coordinates are numbers, given what the
/// coordinates of each are read as.
pub fn first_hit(rows: &[GeocodeRow], coords: &[(Option<Real>, Option<Real>)]) -> (r: Option<
    GeocodeHit,
>)
    requires
        rows@.len() == coords@.len(),
    ensures
        match r {
            Some(hit) => first_located(coords@, 0) matches Some(i) && hit.lat == coords@[i].0->0
                && hit.lon == coords@[i].1->0 && hit.display_name == rows@[i].display_name,
            None => first_located(coords@, 0) is None,
        },
{
    let n: usize = rows.len();
    let mut i: usize = 0;
    while i < n
        invariant
            0 <= i <= n,
            n == rows@.len(),
            n == coords@.len(),
            first_located(coords@, 0) == first_located(coords@, i as int),
        decreases n - i,
    {
        if let (Some(lat), Some(lon)) = coords[i] {
            return Some(GeocodeHit { lat, lon, display_name: copy_text(&rows[i].display_name) });
        }
        i += 1;
    }
    None
}

// ---------------------------------------------------------------------------
// The cache
// ---------------------------------------------------------------------------

/// What happened on the way to the answer for a street name.
#[derive(Clone, Copy, PartialEq, Eq, Structural)]
pub enum LookupEvent {
    /// The answer is in the cache: where the street is, or that there is none.
    Known,
    /// The answer is not in the cache.
    Unknown,
    /// An answer came: where the street is, or that there is none.
    Answered,
    /// No answer came.
    Failed,
}

/// What is done next for the answer.
#[derive(Clone, Copy, PartialEq, Eq, Structural)]
pub enum LookupAction {
    /// The answer in the cache is used.
    Use,
    /// The service is asked.
    Ask,
    /// The answer goes into the cache, and is used.
    Store,
    /// There is no answer for now.
    Fail,
}

/// What is done next for the answer: what is known is not asked for again, and only what
/// came back is kept.
pub open spec fn lookup_action(event: LookupEvent) -> LookupAction {
    match event {
        LookupEvent::Known => LookupAction::Use,
        LookupEvent::Unknown => LookupAction::Ask,
        LookupEvent::Answered => LookupAction::Store,
        LookupEvent::Failed => LookupAction::Fail,
    }
}

/// Decides what is done next for the answer.
pub fn lookup_step(event: LookupEvent) -> (r: LookupAction)
    ensures
        r == lookup_action(event),
{
    match event {
        LookupEvent::Known => LookupAction::Use,
        LookupEvent::Unknown => LookupAction::Ask,
        LookupEvent::Answered => LookupAction::Store,
        LookupEvent::Failed => LookupAction::Fail,
    }
}

/// Whether the service is asked for a street name, given the names in the cache.
pub open spec fn is_asked(cached: Set<Seq<char>>, name: Seq<char>) -> bool {
    lookup_action(
        if cached.contains(name) {
            LookupEvent::Known
        } else {
            LookupEvent::Unknown
        },
    ) == LookupAction::Ask
}

/// The names in the cache after one was looked up, and the service would answer, or not.
pub open spec fn cached_after(cached: Set<Seq<char>>, name: Seq<char>, answers: bool) -> Set<
    Seq<char>,
> {
    let event = if answers {
        LookupEvent::Answered
    } else {
        LookupEvent::Failed
    };
    if is_asked(cached, name) && lookup_action(event) == LookupAction::Store {
        cached.insert(name)
    } else {
        cached
    }
}

// ---------------------------------------------------------------------------
// The nearest street
// ---------------------------------------------------------------------------

/// How many street names of an item are looked at.
pub const MAX_GEOCODE_CANDIDATES: usize = 60;

/// How sure a street name has to be to be looked up.
pub const MIN_CONFIDENCE: i32 = 3;

/// What came of looking for a street.
pub enum DistanceLookup {
    /// The nearest one, in metres, and what it is called.
    Found(Real, String),
    /// There is none.
    NoMatch,
    /// The answer did not come; it is worth another try.
    TransientFailure,
}

/// What came of looking one street name up.
pub enum GeocodeAnswer {
    /// It was found at a distance in metres.
    Hit {
        /// The distance.
        distance: Real,
        /// The address.
        display_name: Option<String>,
    },
    /// There is no such street.
    Miss,
    /// The answer did not come.
    Failure,
}

/// The search for the nearest street.
pub struct StreetSearch {
    /// The nearest street so far: its distance, and what it is called.
    pub best: Option<(Real, String)>,
    /// Whether an answer did not come.
    pub failed: bool,
}

/// The nearer of the nearest street so far and one that was found. What is 20
/// kilometres away or more does not count. A street is called by its address, if it
/// has one.
pub open spec fn nearer_street(
    best: Option<(Real, Seq<char>)>,
    candidate: Seq<char>,
    distance: Real,
    display_name: Option<Seq<char>>,
) -> Option<(Real, Seq<char>)> {
    let label = match display_name {
        Some(n) => match short_label(n) {
            Some(l) => l,
            None => candidate,
        },
        None => candidate,
    };
    let replaces = match best {
        None => true,
        Some((d, _)) => distance.less(d),
    };
    if distance.below(20_000) && replaces {
        Some((distance, label))
    } else {
        best
    }
}

/// The state of a search after the answers for the first `n` names.
pub open spec fn searched(
    names: Seq<(Seq<char>, int)>,
    answers: Seq<GeocodeAnswer>,
    n: int,
) -> (Option<(Real, Seq<char>)>, bool)
    decreases n,
{
    if n <= 0 {
        (None, false)
    } else {
        let (best, failed) = searched(names, answers, n - 1);
        match answers[n - 1] {
            GeocodeAnswer::Hit { distance, display_name } => (
                nearer_street(best, names[n - 1].0, distance, display_name.deep_view()),
                failed,
            ),
            GeocodeAnswer::Miss => (best, failed),
            GeocodeAnswer::Failure => (best, true),
        }
    }
}

impl StreetSearch {
    /// What the search has come to.
    pub open spec fn state(self) -> (Option<(Real, Seq<char>)>, bool) {
        (place_view(self.best), self.failed)
    }

    /// A search that has not begun.
    pub fn new() -> (r: StreetSearch)
        ensures
            r.state() == (None::<(Real, Seq<char>)>, false),
    {
        StreetSearch { best: None, failed: false }
    }

    /// Takes the answer for one more name into account.
    pub fn step(self, evidence: &StreetEvidence, answer: GeocodeAnswer) -> (r: StreetSearch)
        ensures
            r.state() == (match answer {
                GeocodeAnswer::Hit { distance, display_name } => (
                    nearer_street(
                        self.state().0,
                        evidence.candidate@,
                        distance,
                        display_name.deep_view(),
                    ),
                    self.state().1,
                ),
                GeocodeAnswer::Miss => self.state(),
                GeocodeAnswer::Failure => (self.state().0, true),
            }),
    {
        match answer {
            GeocodeAnswer::Hit { distance, display_name } => {
                let replaces = match &self.best {
                    None => true,
                    Some((d, _)) => distance.lt(*d),
                };
                if !in_geocode_range(distance) || !replaces {
                    return self;
                }
                let short = match &display_name {
                    Some(n) => short_location_label(n.as_str()),
                    None => None,
                };
                let label = match short {
                    Some(l) => l,
                    None => evidence.candidate.clone(),
                };
                StreetSearch { best: Some((distance, label)), failed: self.failed }
            },
            GeocodeAnswer::Miss => self,
            GeocodeAnswer::Failure => StreetSearch { best: self.best, failed: true },
        }
    }

    /// What came of the search: the nearest street, or else whether another try is
    /// worth it.
    pub fn finish(self) -> (r: DistanceLookup)
        ensures
            match self.state().0 {
                Some((d, label)) => r matches DistanceLookup::Found(x, l) && x == d && l@
                    == label,
                None => if self.state().1 {
                    r == DistanceLookup::TransientFailure
                } else {
                    r == DistanceLookup::NoMatch
                },
            },
    {
        match self.best {
            Some((d, label)) => DistanceLookup::Found(d, label),
            None => if self.failed {
                DistanceLookup::TransientFailure
            } else {
                DistanceLookup::NoMatch
            },
        }
    }
}

/// Those of the first 60 street names that are sure enough to be looked up.
pub open spec fn worth_looking_up(names: Seq<(Seq<char>, int)>, n: int) -> Seq<(Seq<char>, int)>
    decreases n,
{
    if n <= 0 {
        seq![]
    } else {
        let before = worth_looking_up(names, n - 1);
        if names[n - 1].1 >= MIN_CONFIDENCE {
            before.push(names[n - 1])
        } else {
            before
        }
    }
}

/// Those of the street names of an item that are looked up, in their order.
pub open spec fn looked_up(names: Seq<(Seq<char>, int)>) -> Seq<(Seq<char>, int)> {
    worth_looking_up(
        names,
        if names.len() < MAX_GEOCODE_CANDIDATES {
            names.len() as int
        } else {
            MAX_GEOCODE_CANDIDATES as int
        },
    )
}

/// Those of the street names of an item that are looked up, in their order.
pub fn names_to_look_up(evidence: Vec<StreetEvidence>) -> (r: Vec<StreetEvidence>)
    ensures
        evidence_view(r@) == looked_up(evidence_view(evidence@)),
{
    let ghost names = evidence_view(evidence@);
    let n: usize = if evidence.len() < MAX_GEOCODE_CANDIDATES {
        evidence.len()
    } else {
        MAX_GEOCODE_CANDIDATES
    };
    let mut out: Vec<StreetEvidence> = Vec::new();
    let mut i: usize = 0;
    assert(evidence_view(out@) == Seq::<(Seq<char>, int)>::empty());
    while i < n
        invariant
            0 <= i <= n <= evidence@.len(),
            names == evidence_view(evidence@),
            evidence_view(out@) == worth_looking_up(names, i as int),
        decreases n - i,
    {
        let ghost before = out@;
        let e = &evidence[i];
        assert(names[i as int] == (e.candidate@, e.confidence as int));
        if e.confidence >= MIN_CONFIDENCE {
            let copy = StreetEvidence {
                candidate: e.candidate.clone(),
                confidence: e.confidence,
            };
            out.push(copy);
            assert(evidence_view(out@) == evidence_view(before).push(names[i as int]));
        }
        i += 1;
    }
    out
}

/// What comes of a search in which each name got its answer.
pub fn nearest_street(evidence: &[StreetEvidence], answers: Vec<GeocodeAnswer>) -> (r:
    DistanceLookup)
    requires
        evidence@.len() == answers@.len(),
    ensures
        ({
            let (best, failed) = searched(
                evidence_view(evidence@),
                answers@,
                answers@.len() as int,
            );
            match best {
                Some((d, label)) => r matches DistanceLookup::Found(x, l) && x == d && l@
                    == label,
                None => if failed {
                    r == DistanceLookup::TransientFailure
                } else {
                    r == DistanceLookup::NoMatch
                },
            }
        }),
{
    let ghost all = answers@;
    let ghost names = evidence_view(evidence@);
    let mut rest = answers;
    let mut search = StreetSearch::new();
    let n: usize = evidence.len();
    let mut i: usize = 0;
    assert(all.skip(0) == all);
    while i < n
        invariant
            0 <= i <= n,
            n == evidence@.len(),
            n == all.len(),
            rest@ == all.skip(i as int),
            names == evidence_view(evidence@),
            search.state() == searched(names, all, i as int),
        decreases n - i,
    {
        let answer = rest.remove(0);
        assert(answer == all[i as int]);
        assert(names[i as int] == (
            evidence@[i as int].candidate@,
            evidence@[i as int].confidence as int,
        ));
        search = search.step(&evidence[i], answer);
        i += 1;
    }
    search.finish()
}

// ---------------------------------------------------------------------------
// Laws
// ---------------------------------------------------------------------------

/// A street that was found is less than 20 kilometres away.
pub proof fn law_found_streets_are_in_range(
    names: Seq<(Seq<char>, int)>,
    answers: Seq<GeocodeAnswer>,
    n: int,
)
    requires
        n <= names.len(),
        n <= answers.len(),
    ensures
        match searched(names, answers, n).0 {
            Some((d, _)) => d.below(20_000),
            None => true,
        },
    decreases n,
{
    if n > 0 {
        law_found_streets_are_in_range(names, answers, n - 1);
    }
}

/// Whether a street that was found, if any, is at most as far away as the answer for a
/// name, if that was hit less than 20 kilometres away.
pub open spec fn no_farther_than(found: Option<(Real, Seq<char>)>, answer: GeocodeAnswer) -> bool {
    match answer {
        GeocodeAnswer::Hit { distance, .. } => distance.below(20_000) ==> (found matches Some(f)
            && !f.0.is_nan() && f.0.value() <= distance.value()),
        _ => true,
    }
}

/// The nearest street counts: what was found is at most as far away as every street
/// that was hit less than 20 kilometres away, however sure its name was.
pub proof fn law_the_nearest_street_counts(
    names: Seq<(Seq<char>, int)>,
    answers: Seq<GeocodeAnswer>,
    n: int,
)
    requires
        n <= names.len(),
        n <= answers.len(),
    ensures
        forall|i: int|
            0 <= i < n ==> no_farther_than(searched(names, answers, n).0, #[trigger] answers[i]),
    decreases n,
{
    if n > 0 {
        law_the_nearest_street_counts(names, answers, n - 1);
        law_found_streets_are_in_range(names, answers, n - 1);
    }
}

/// A failure is reported only where nothing was found: as long as all answers
/// come, no other try is asked for.
pub proof fn law_no_failure_without_a_missing_answer(
    names: Seq<(Seq<char>, int)>,
    answers: Seq<GeocodeAnswer>,
    n: int,
)
    requires
        n <= answers.len(),
        forall|i: int| 0 <= i < n ==> (#[trigger] answers[i]) !is Failure,
    ensures
        !searched(names, answers, n).1,
    decreases n,
{
    if n > 0 {
        law_no_failure_without_a_missing_answer(names, answers, n - 1);
    }
}

/// A street name that the service answered for is not asked for again, and one that it did
/// not answer for is: failures are not kept.
pub proof fn law_only_answers_are_cached(cached: Set<Seq<char>>, name: Seq<char>)
    ensures
        !is_asked(cached_after(cached, name, true), name),
        cached_after(cached, name, false) == cached,
        is_asked(cached, name) ==> is_asked(cached_after(cached, name, false), name),
{
}

/// Whether an answer is a hit at a distance, and a label is what that street is called: the
/// start of its address or, without one, the name that was looked up.
pub open spec fn is_hit(
    answer: GeocodeAnswer,
    name: Seq<char>,
    distance: Real,
    label: Seq<char>,
) -> bool {
    answer matches GeocodeAnswer::Hit { distance: d, display_name } && d == distance && label == (
    match display_name {
        Some(n) => match short_label(n@) {
            Some(l) => l,
            None => name,
        },
        None => name,
    })
}

/// A street that was found is one that was hit: its distance and what it is called belong to
/// the same answer. Nothing is found only if nothing was hit less than 20 kilometres away, and
/// the search has failed exactly if one of the answers did not come.
pub proof fn law_found_streets_were_hit(
    names: Seq<(Seq<char>, int)>,
    answers: Seq<GeocodeAnswer>,
    n: int,
)
    requires
        0 <= n <= names.len(),
        n <= answers.len(),
    ensures
        match searched(names, answers, n).0 {
            Some((d, label)) => exists|i: int|
                0 <= i < n && is_hit(#[trigger] answers[i], names[i].0, d, label),
            None => forall|i: int|
                0 <= i < n ==> !((#[trigger] answers[i]) is Hit && answers[i]->distance.below(
                    20_000,
                )),
        },
        searched(names, answers, n).1 <==> exists|i: int|
            0 <= i < n && (#[trigger] answers[i]) is Failure,
    decreases n,
{
    if n > 0 {
        law_found_streets_were_hit(names, answers, n - 1);
        let before = searched(names, answers, n - 1).0;
        let now = searched(names, answers, n).0;
        if now != before {
            if let Some((d, label)) = now {
                assert(is_hit(answers[n - 1], names[n - 1].0, d, label));
            }
        } else if let Some((d, label)) = now {
            let i = choose|i: int|
                0 <= i < n - 1 && is_hit(#[trigger] answers[i], names[i].0, d, label);
            assert(is_hit(answers[i], names[i].0, d, label));
        }
        if searched(names, answers, n - 1).1 {
            let i = choose|i: int| 0 <= i < n - 1 && (#[trigger] answers[i]) is Failure;
            assert(answers[i] is Failure);
        }
    }
}

proof fn lemma_worth_looking_up(names: Seq<(Seq<char>, int)>, n: int)
    requires
        0 <= n <= names.len(),
    ensures
        worth_looking_up(names, n) == names.take(n).filter(|x: (Seq<char>, int)| x.1 >= 3),
    decreases n,
{
    reveal(Seq::filter);
    if n > 0 {
        lemma_worth_looking_up(names, n - 1);
        assert(names.take(n).drop_last() == names.take(n - 1));
        assert(names.take(n).last() == names[n - 1]);
    }
}

/// Of the first 60 street names of an item those with a confidence of at least three are looked
/// up, all of them and in their order.
pub proof fn law_sure_names_are_looked_up(names: Seq<(Seq<char>, int)>)
    ensures
        names.len() <= 60 ==> looked_up(names) == names.filter(|x: (Seq<char>, int)| x.1 >= 3),
        names.len() > 60 ==> looked_up(names) == names.take(60).filter(
            |x: (Seq<char>, int)| x.1 >= 3,
        ),
{
    if names.len() <= 60 {
        lemma_worth_looking_up(names, names.len() as int);
        assert(names.take(names.len() as int) == names);
    } else {
        lemma_worth_looking_up(names, 60);
    }
}

/// Whether a row is the one of a place: its coordinates and its address, as they are written.
pub open spec fn is_row_of(row: (Seq<char>, Seq<char>, Option<Seq<char>>), result: Json) -> bool {
    &&& text_in(member(result, "lat"@)) == Some(row.0)
    &&& text_in(member(result, "lon"@)) == Some(row.1)
    &&& text_in(member(result, "display_name"@)) == row.2
}

/// Whether a place has coordinates, and the name of the city stands in its address.
pub open spec fn is_place_in(result: Json, address: Seq<char>, city: Seq<char>) -> bool {
    &&& text_in(member(result, "lat"@)) is Some
    &&& text_in(member(result, "lon"@)) is Some
    &&& city_of(city) matches Some(name) ==> (match text_in(member(result, "display_name"@)) {
        Some(shown) => occurs(normalized(shown + " "@ + address), normalized(name)),
        None => occurs(normalized(" "@ + address), normalized(name)),
    })
}

proof fn lemma_row_of(result: Json, address: Seq<char>, city: Seq<char>)
    ensures
        row_of(result, address, city) is Some <==> is_place_in(result, address, city),
        row_of(result, address, city) matches Some(row) ==> is_row_of(row, result),
{
    assert(Seq::<char>::empty() + " "@ + address == " "@ + address);
}

/// Whether a row is that of one of the first `n` places, which has coordinates in the city.
pub open spec fn has_its_place(
    row: (Seq<char>, Seq<char>, Option<Seq<char>>),
    results: Seq<Json>,
    addresses: Seq<Seq<char>>,
    city: Seq<char>,
    n: int,
) -> bool {
    exists|i: int|
        0 <= i < n && is_place_in(#[trigger] results[i], addresses[i], city) && is_row_of(
            row,
            results[i],
        )
}

/// Whether a place has its row.
pub open spec fn has_its_row(
    result: Json,
    rows: Seq<(Seq<char>, Seq<char>, Option<Seq<char>>)>,
) -> bool {
    exists|k: int| 0 <= k < rows.len() && is_row_of(#[trigger] rows[k], result)
}

/// Each row of an answer is that of a place with coordinates in the city, and each such place
/// has its row.
pub proof fn law_rows_are_places_in_the_city(
    results: Seq<Json>,
    addresses: Seq<Seq<char>>,
    city: Seq<char>,
    n: int,
)
    requires
        0 <= n <= results.len(),
        addresses.len() == results.len(),
    ensures
        forall|k: int|
            0 <= k < rows_upto(results, addresses, city, n).len() ==> has_its_place(
                #[trigger] rows_upto(results, addresses, city, n)[k],
                results,
                addresses,
                city,
                n,
            ),
        forall|i: int|
            0 <= i < n && is_place_in(#[trigger] results[i], addresses[i], city) ==> has_its_row(
                results[i],
                rows_upto(results, addresses, city, n),
            ),
    decreases n,
{
    if n > 0 {
        let before = rows_upto(results, addresses, city, n - 1);
        let now = rows_upto(results, addresses, city, n);
        law_rows_are_places_in_the_city(results, addresses, city, n - 1);
        lemma_row_of(results[n - 1], addresses[n - 1], city);
        assert forall|k: int| 0 <= k < now.len() implies has_its_place(
            #[trigger] now[k],
            results,
            addresses,
            city,
            n,
        ) by {
            if k < before.len() {
                assert(now[k] == before[k]);
                assert(has_its_place(before[k], results, addresses, city, n - 1));
            } else {
                assert(is_row_of(now[k], results[n - 1]));
            }
        }
        assert forall|i: int|
            0 <= i < n && is_place_in(#[trigger] results[i], addresses[i], city) implies has_its_row(
            results[i],
            now,
        ) by {
            if i < n - 1 {
                assert(has_its_row(results[i], before));
                let k = choose|k: int|
                    0 <= k < before.len() && is_row_of(#[trigger] before[k], results[i]);
                assert(is_row_of(now[k], results[i]));
            } else {
                assert(is_row_of(now[before.len() as int], results[i]));
            }
        }
    }
}

/// The place that is taken is the first one whose coordinates are both numbers.
pub proof fn law_first_numbers_count(coords: Seq<(Option<Real>, Option<Real>)>, from: int)
    requires
        0 <= from,
    ensures
        match first_located(coords, from) {
            Some(i) => from <= i < coords.len() && coords[i].0 is Some && coords[i].1 is Some && forall|
                j: int,
            |
                from <= j < i ==> (#[trigger] coords[j]).0 is None || coords[j].1 is None,
            None => forall|j: int|
                from <= j < coords.len() ==> (#[trigger] coords[j]).0 is None || coords[j].1 is None,
        },
    decreases coords.len() - from,
{
    if from < coords.len() && !(coords[from].0 is Some && coords[from].1 is Some) {
        law_first_numbers_count(coords, from + 1);
    }
}

/// The address that answers come from asks for the street, in the city if there is one: read
/// back from the address, the query is what was asked for.
pub proof fn law_addresses_ask_for_the_street(query: Seq<char>, city: Seq<char>)
    ensures
        occurs(
            search_url(query, city),
            "?q="@ + url_encoded(
                if city.len() > 0 {
                    query + ", "@ + city
                } else {
                    query
                },
            ) + "&"@,
        ),
{
    let q = url_encoded(full_query(query, city));
    let head = "https://nominatim.openstreetmap.org/search"@;
    let tail = "format=json&addressdetails=1&limit=5"@;
    reveal_strlit("https://nominatim.openstreetmap.org/search?q=");
    reveal_strlit("https://nominatim.openstreetmap.org/search");
    reveal_strlit("?q=");
    reveal_strlit("&format=json&addressdetails=1&limit=5");
    reveal_strlit("format=json&addressdetails=1&limit=5");
    reveal_strlit("&");
    assert("https://nominatim.openstreetmap.org/search?q="@ == head + "?q="@);
    assert("&format=json&addressdetails=1&limit=5"@ == "&"@ + tail);
    let asked = "?q="@ + q + "&"@;
    let url = search_url(query, city);
    let n = head.len() as int;
    assert(url == head + asked + tail);
    assert(url.subrange(n, n + asked.len()) == asked);
    assert(occurs_at(url, asked, n));
}

} // verus!

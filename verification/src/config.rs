//! What the bot is configured with.

use vstd::prelude::*;

use crate::ieee::Real;
use crate::sources::SourceType;
use crate::text::{
    alphabetic, chars_of, lemma_first_piece, lemma_last_piece, split, split_of, string_of, trim_of,
    trimmed, words, words_of, CharClass,
};
use crate::weather::WeatherProvider;

verus! {

// ---------------------------------------------------------------------------
// Defaults
// ---------------------------------------------------------------------------

/// How many seconds pass between looks for alerts.
pub fn default_alert_poll_secs() -> (r: u64)
    ensures
        r == 120,
{
    120
}

/// The score from which on an item is put into a digest.
pub fn default_digest_threshold() -> (r: i32)
    ensures
        r == 1,
{
    1
}

/// The score from which on an item is kept as a candidate.
pub fn default_candidate_min_score() -> (r: i32)
    ensures
        r == 1,
{
    1
}

/// From how many sources on a candidate is promoted.
pub fn default_candidate_min_sources() -> (r: usize)
    ensures
        r == 2,
{
    2
}

/// For how many hours candidates are kept.
pub fn default_candidate_retention_hours() -> (r: u64)
    ensures
        r == 24,
{
    24
}

/// How many minutes pass between polls.
pub fn default_poll_interval() -> (r: u64)
    ensures
        r == 30,
{
    30
}

/// When digests are posted.
pub fn default_digest_times() -> (r: Vec<String>)
    ensures
        r.deep_view() == seq!["08:00"@],
{
    let mut out: Vec<String> = Vec::new();
    out.push("08:00".to_owned());
    assert(out.deep_view() =~= seq!["08:00"@]);
    out
}

/// What is on unless it is switched off.
pub fn default_true() -> (r: bool)
    ensures
        r,
{
    true
}

// ---------------------------------------------------------------------------
// Sections
// ---------------------------------------------------------------------------

/// The account for searches on Bluesky.
pub struct BlueskyConfig {
    /// The name of the account.
    pub identifier: Option<String>,
    /// Its password.
    pub password: Option<String>,
}

/// Emergency alerts.
pub struct EmergencyConfig {
    /// Whether alerts are sent.
    pub enabled: bool,
    /// How far away earthquakes and disasters matter, in kilometres; everywhere
    /// if it is missing.
    pub max_distance_km: Option<Real>,
    /// How many seconds pass between looks for alerts.
    pub poll_interval_secs: u64,
}

/// The bits of 500.
pub const FIVE_HUNDRED: u64 = 0x407f_4000_0000_0000;

impl Default for EmergencyConfig {
    fn default() -> (r: EmergencyConfig)
        ensures
            r.enabled,
            r.max_distance_km == Some(Real { bits: FIVE_HUNDRED }),
            r.poll_interval_secs == 120,
    {
        EmergencyConfig {
            enabled: true,
            max_distance_km: Some(Real { bits: FIVE_HUNDRED }),
            poll_interval_secs: default_alert_poll_secs(),
        }
    }
}

/// Weather forecasts and warnings.
pub struct WeatherConfig {
    /// Whether forecasts are posted.
    pub enabled: bool,
    /// Where forecasts come from.
    pub provider: WeatherProvider,
    /// When the forecast is posted; with the first digest if it is missing.
    pub post_time: Option<String>,
    /// Whether weather warnings are sent.
    pub alerts_enabled: bool,
    /// The regions whose weather warnings matter; the configured city if there
    /// are none.
    pub warning_region_keywords: Vec<String>,
}

impl Default for WeatherConfig {
    fn default() -> (r: WeatherConfig)
        ensures
            r.enabled,
            r.provider == WeatherProvider::Brightsky,
            r.post_time is None,
            r.alerts_enabled,
            r.warning_region_keywords@.len() == 0,
    {
        WeatherConfig {
            enabled: true,
            provider: WeatherProvider::Brightsky,
            post_time: None,
            alerts_enabled: true,
            warning_region_keywords: Vec::new(),
        }
    }
}

/// A source of news.
pub struct SourceConfig {
    /// The name that is shown.
    pub name: String,
    /// What kind of source it is.
    pub source_type: SourceType,
    /// The address of a feed.
    pub url: Option<String>,
    /// What is searched for.
    pub query: Option<String>,
    /// How many posts a search returns.
    pub limit: Option<usize>,
    /// How many hours old items may be.
    pub max_age_hours: Option<u64>,
    /// Whether items are filtered by place.
    pub filter: bool,
    /// How far away items are, in metres, where nothing says more.
    pub base_implied_meters: Option<Real>,
    /// Keywords that are required in place of those of the filter.
    pub required: Option<Vec<String>>,
}

/// Keywords for an area, and how far away it is.
pub struct AreaGroup {
    /// How far away the area is, in metres.
    pub implied_meters: Real,
    /// What the area is called.
    pub terms: Vec<String>,
}

/// A place with its coordinates.
pub struct PlaceConfig {
    /// The name that is shown.
    pub name: String,
    /// The latitude.
    pub lat: Real,
    /// The longitude.
    pub lon: Real,
    /// What else the place is called.
    pub aliases: Vec<String>,
}

/// How items are filtered and scored.
pub struct FilterConfig {
    /// Keywords of which one has to be in an item.
    pub required: Vec<String>,
    /// Keywords of which none may be in an item.
    pub blocklist: Vec<String>,
    /// The score from which on an item is put into a digest.
    pub digest_threshold: i32,
    /// The score from which on an item is kept as a candidate.
    pub candidate_min_score: i32,
    /// From how many sources on a candidate is promoted.
    pub candidate_min_sources: usize,
    /// For how many hours candidates are kept.
    pub candidate_retention_hours: u64,
    /// The areas.
    pub area: Vec<AreaGroup>,
    /// The places.
    pub places: Vec<PlaceConfig>,
    /// The address that distances are measured from.
    pub reference_address: Option<String>,
    /// The city in which streets are looked up.
    pub geocode_city: Option<String>,
}

impl Default for FilterConfig {
    fn default() -> (r: FilterConfig)
        ensures
            r.required@.len() == 0,
            r.blocklist@.len() == 0,
            r.digest_threshold == 0,
            r.candidate_min_score == 0,
            r.candidate_min_sources == 0,
            r.candidate_retention_hours == 0,
            r.area@.len() == 0,
            r.places@.len() == 0,
            r.reference_address is None,
            r.geocode_city is None,
    {
        FilterConfig {
            required: Vec::new(),
            blocklist: Vec::new(),
            digest_threshold: 0,
            candidate_min_score: 0,
            candidate_min_sources: 0,
            candidate_retention_hours: 0,
            area: Vec::new(),
            places: Vec::new(),
            reference_address: None,
            geocode_city: None,
        }
    }
}

/// When what is done.
pub struct ScheduleConfig {
    /// How many minutes pass between polls.
    pub poll_interval_minutes: u64,
    /// When digests are posted.
    pub digest_times: Vec<String>,
}

impl Default for ScheduleConfig {
    fn default() -> (r: ScheduleConfig)
        ensures
            r.poll_interval_minutes == 30,
            r.digest_times.deep_view() == seq!["08:00"@],
    {
        ScheduleConfig {
            poll_interval_minutes: default_poll_interval(),
            digest_times: default_digest_times(),
        }
    }
}

// ---------------------------------------------------------------------------
// The city
// ---------------------------------------------------------------------------

/// What is before the first comma, if it is not blank.
pub open spec fn city_of(place: Seq<char>) -> Option<Seq<char>> {
    let city = trimmed(split(place, ',')[0]);
    if city.len() == 0 {
        None
    } else {
        Some(city)
    }
}

/// What is before the first comma, if it is not blank.
pub fn city_name(place: &str) -> (r: Option<String>)
    ensures
        r.deep_view() == city_of(place@),
{
    let c = chars_of(place);
    let pieces = split_of(c.as_slice(), ',');
    proof {
        crate::text::lemma_split_nonempty(place@, ',');
        assert(pieces.deep_view()[0] == pieces@[0]@);
    }
    let city = trim_of(pieces[0].as_slice(), CharClass::Space);
    if city.len() == 0 {
        None
    } else {
        Some(string_of(city.as_slice()))
    }
}

/// The first word with a letter in it.
pub open spec fn first_name(ws: Seq<Seq<char>>) -> Option<Seq<char>>
    decreases ws.len(),
{
    if ws.len() == 0 {
        None
    } else if exists|i: int| 0 <= i < ws[0].len() && alphabetic(#[trigger] ws[0][i]) {
        Some(ws[0])
    } else {
        first_name(ws.skip(1))
    }
}

/// The first word with a letter in it behind the last comma of an address.
pub open spec fn address_city(address: Seq<char>) -> Option<Seq<char>> {
    first_name(words(trimmed(split(address, ',').last())))
}

fn has_letter(w: &[char]) -> (r: bool)
    ensures
        r == exists|i: int| 0 <= i < w@.len() && alphabetic(#[trigger] w@[i]),
{
    let n: usize = w.len();
    let mut i: usize = 0;
    while i < n
        invariant
            0 <= i <= n,
            n == w@.len(),
            forall|j: int| 0 <= j < i ==> !alphabetic(#[trigger] w@[j]),
        decreases n - i,
    {
        if w[i].is_alphabetic() {
            return true;
        }
        i += 1;
    }
    false
}

fn address_city_of(address: &str) -> (r: Option<String>)
    ensures
        r.deep_view() == address_city(address@),
{
    let c = chars_of(address);
    let pieces = split_of(c.as_slice(), ',');
    proof {
        crate::text::lemma_split_nonempty(address@, ',');
        assert(pieces.deep_view().last() == pieces@.last()@);
    }
    let part = trim_of(pieces[pieces.len() - 1].as_slice(), CharClass::Space);
    let ws = words_of(part.as_slice());
    let ghost all = ws.deep_view();
    let n: usize = ws.len();
    let mut i: usize = 0;
    assert(all.skip(0) == all);
    while i < n
        invariant
            0 <= i <= n,
            n == ws@.len(),
            all == ws.deep_view(),
            address_city(address@) == first_name(all),
            first_name(all) == first_name(all.skip(i as int)),
        decreases n - i,
    {
        let ghost rest = all.skip(i as int);
        assert(rest.skip(1) == all.skip(i + 1));
        assert(rest[0] == ws@[i as int]@);
        if has_letter(ws[i].as_slice()) {
            return Some(string_of(ws[i].as_slice()));
        }
        i += 1;
    }
    None
}

/// The regions whose weather warnings matter: those that are configured, or
/// else the city in which streets are looked up, or else the city of the
/// reference address.
pub open spec fn warning_regions(filter: &FilterConfig, weather: &WeatherConfig) -> Seq<Seq<char>> {
    let given = weather.warning_region_keywords.deep_view();
    let from_city = match filter.geocode_city {
        Some(place) => city_of(place@),
        None => None,
    };
    let from_address = match filter.reference_address {
        Some(address) => address_city(address@),
        None => None,
    };
    if given.len() > 0 {
        given
    } else {
        match from_city {
            Some(city) => seq![city],
            None => match from_address {
                Some(city) => seq![city],
                None => seq![],
            },
        }
    }
}

/// A copy of strings.
pub fn copy_strings(v: &Vec<String>) -> (r: Vec<String>)
    ensures
        r@ == v@,
{
    let n: usize = v.len();
    let mut out: Vec<String> = Vec::new();
    let mut i: usize = 0;
    while i < n
        invariant
            0 <= i <= n,
            n == v@.len(),
            out@ == v@.take(i as int),
        decreases n - i,
    {
        out.push(v[i].clone());
        assert(v@.take(i + 1) == v@.take(i as int).push(v@[i as int]));
        i += 1;
    }
    assert(v@.take(n as int) == v@);
    out
}

fn single(s: String) -> (r: Vec<String>)
    ensures
        r.deep_view() == seq![s@],
{
    let mut out: Vec<String> = Vec::new();
    out.push(s);
    assert(out.deep_view() =~= seq![s@]);
    out
}

/// The regions whose weather warnings matter.
pub fn derive_warning_region_keywords(filter: &FilterConfig, weather: &WeatherConfig) -> (r: Vec<
    String,
>)
    ensures
        r.deep_view() == warning_regions(filter, weather),
{
    assert(weather.warning_region_keywords.deep_view().len()
        == weather.warning_region_keywords@.len());
    if weather.warning_region_keywords.len() > 0 {
        let out = copy_strings(&weather.warning_region_keywords);
        assert(out.deep_view() =~= weather.warning_region_keywords.deep_view());
        return out;
    }
    let from_city = match &filter.geocode_city {
        Some(place) => city_name(place.as_str()),
        None => None,
    };
    if let Some(city) = from_city {
        return single(city);
    }
    let from_address = match &filter.reference_address {
        Some(address) => address_city_of(address.as_str()),
        None => None,
    };
    match from_address {
        Some(city) => single(city),
        None => {
            let none: Vec<String> = Vec::new();
            assert(none.deep_view() =~= Seq::<Seq<char>>::empty());
            none
        },
    }
}

// ---------------------------------------------------------------------------
// Laws
// ---------------------------------------------------------------------------

/// The city of a place is what stands before the first comma, without the white space around
/// it; none where that is blank.
pub proof fn law_cities_stand_before_the_comma(city: Seq<char>, rest: Seq<char>)
    requires
        !city.contains(','),
    ensures
        trimmed(city).len() > 0 ==> city_of(city + ","@ + rest) == Some(trimmed(city)) && city_of(
            city,
        ) == Some(trimmed(city)),
        trimmed(city).len() == 0 ==> city_of(city + ","@ + rest) is None && city_of(city) is None,
{
    reveal_strlit(",");
    lemma_first_piece(city, ","@ + rest, ',');
    lemma_first_piece(city, seq![], ',');
    assert(city + (","@ + rest) == city + ","@ + rest);
    assert(city + Seq::<char>::empty() == city);
}

/// Warnings are sent for the regions that are named; where none is, for the city in which
/// streets are looked up, and else for that of the address.
pub proof fn law_regions_are_chosen(filter: &FilterConfig, weather: &WeatherConfig)
    ensures
        weather.warning_region_keywords@.len() > 0 ==> warning_regions(filter, weather)
            == weather.warning_region_keywords.deep_view(),
        weather.warning_region_keywords@.len() == 0 ==> (filter.geocode_city matches Some(place) ==> (
        city_of(place@) matches Some(city) ==> warning_regions(filter, weather) == seq![city])),
        weather.warning_region_keywords@.len() == 0 && (filter.geocode_city matches Some(place)
            ==> city_of(place@) is None) ==> (filter.reference_address matches Some(address) ==> (
        address_city(address@) matches Some(city) ==> warning_regions(filter, weather)
            == seq![city])),
{
    assert(weather.warning_region_keywords.deep_view().len()
        == weather.warning_region_keywords@.len());
}

/// Whether a word has a letter in it.
pub open spec fn has_a_letter(word: Seq<char>) -> bool {
    exists|i: int| 0 <= i < word.len() && alphabetic(#[trigger] word[i])
}

/// The city of an address stands behind its last comma: it is the first word there that has a
/// letter in it, as a postal code has not.
pub proof fn law_addresses_end_with_the_city(street: Seq<char>, rest: Seq<char>)
    requires
        !rest.contains(','),
    ensures
        match address_city(street + ","@ + rest) {
            Some(city) => exists|i: int|
                0 <= i < words(trimmed(rest)).len() && #[trigger] words(trimmed(rest))[i] == city
                    && has_a_letter(city) && forall|j: int|
                    0 <= j < i ==> !has_a_letter(#[trigger] words(trimmed(rest))[j]),
            None => forall|j: int|
                0 <= j < words(trimmed(rest)).len() ==> !has_a_letter(
                    #[trigger] words(trimmed(rest))[j],
                ),
        },
{
    reveal_strlit(",");
    assert(","@ == seq![',']);
    lemma_last_piece(street, rest, ',');
    lemma_first_name(words(trimmed(rest)));
}

proof fn lemma_first_name(ws: Seq<Seq<char>>)
    ensures
        match first_name(ws) {
            Some(city) => exists|i: int|
                0 <= i < ws.len() && #[trigger] ws[i] == city && has_a_letter(city) && forall|
                    j: int,
                |
                    0 <= j < i ==> !has_a_letter(#[trigger] ws[j]),
            None => forall|j: int| 0 <= j < ws.len() ==> !has_a_letter(#[trigger] ws[j]),
        },
    decreases ws.len(),
{
    if ws.len() > 0 {
        if has_a_letter(ws[0]) {
            assert(first_name(ws) == Some(ws[0]));
        } else {
            let rest = ws.skip(1);
            lemma_first_name(rest);
            match first_name(rest) {
                Some(city) => {
                    let i = choose|i: int|
                        0 <= i < rest.len() && #[trigger] rest[i] == city && has_a_letter(city)
                            && forall|j: int| 0 <= j < i ==> !has_a_letter(#[trigger] rest[j]);
                    assert(ws[i + 1] == city);
                    assert forall|j: int| 0 <= j < i + 1 implies !has_a_letter(
                        #[trigger] ws[j],
                    ) by {
                        if j > 0 {
                            assert(rest[j - 1] == ws[j]);
                        }
                    }
                },
                None => {
                    assert forall|j: int| 0 <= j < ws.len() implies !has_a_letter(
                        #[trigger] ws[j],
                    ) by {
                        if j > 0 {
                            assert(rest[j - 1] == ws[j]);
                        }
                    }
                },
            }
        }
    }
}

} // verus!

//! Weather forecasts.

use vstd::prelude::*;

use crate::dates::{parse_rfc3339, rfc3339};
use crate::ieee::Real;
use crate::json::{
    document_in, element, items_in, member, parse_json, real_in, text_in, whole_in, Json,
};
use crate::num::{decimal_int, decimal_int_of};
use crate::text::{
    append, append_str, ends_with, join, join_strings, law_joined_parts_are_kept, lemma_added,
    lemma_kept, lemma_occurs_within, occurs, starts_with, str_same, string_of,
};

verus! {

/// Where forecasts come from.
#[derive(Clone, Copy, PartialEq, Eq, Structural)]
pub enum WeatherProvider {
    /// The German weather service, by way of Bright Sky.
    Brightsky,
    /// Open-Meteo.
    Openmeteo,
}

impl Default for WeatherProvider {
    fn default() -> (r: WeatherProvider)
        ensures
            r == WeatherProvider::Brightsky,
    {
        WeatherProvider::Brightsky
    }
}

// ---------------------------------------------------------------------------
// Names
// ---------------------------------------------------------------------------

/// The picture and the name of the weather that Bright Sky gives an icon for.
pub open spec fn sky(icon: Seq<char>) -> (Seq<char>, Seq<char>) {
    if icon == "clear-day"@ {
        ("☀️"@, "Clear"@)
    } else if icon == "clear-night"@ {
        ("🌙"@, "Clear"@)
    } else if icon == "partly-cloudy-day"@ {
        ("⛅"@, "Partly cloudy"@)
    } else if icon == "partly-cloudy-night"@ {
        ("🌤️"@, "Partly cloudy"@)
    } else if icon == "cloudy"@ {
        ("☁️"@, "Cloudy"@)
    } else if icon == "fog"@ {
        ("🌫️"@, "Fog"@)
    } else if icon == "wind"@ {
        ("🌬️"@, "Windy"@)
    } else if icon == "rain"@ {
        ("🌧️"@, "Rain"@)
    } else if icon == "sleet"@ {
        ("🌨️"@, "Sleet"@)
    } else if icon == "snow"@ {
        ("❄️"@, "Snow"@)
    } else if icon == "hail"@ {
        ("🌨️"@, "Hail"@)
    } else if icon == "thunderstorm"@ {
        ("⛈️"@, "Thunderstorm"@)
    } else {
        ("🌡️"@, "Unknown"@)
    }
}

/// The picture and the name of the weather that Bright Sky gives an icon for.
pub fn brightsky_icon(icon: &str) -> (r: (&'static str, &'static str))
    ensures
        (r.0@, r.1@) == sky(icon@),
{
    if str_same(icon, "clear-day") {
        ("☀️", "Clear")
    } else if str_same(icon, "clear-night") {
        ("🌙", "Clear")
    } else if str_same(icon, "partly-cloudy-day") {
        ("⛅", "Partly cloudy")
    } else if str_same(icon, "partly-cloudy-night") {
        ("🌤️", "Partly cloudy")
    } else if str_same(icon, "cloudy") {
        ("☁️", "Cloudy")
    } else if str_same(icon, "fog") {
        ("🌫️", "Fog")
    } else if str_same(icon, "wind") {
        ("🌬️", "Windy")
    } else if str_same(icon, "rain") {
        ("🌧️", "Rain")
    } else if str_same(icon, "sleet") {
        ("🌨️", "Sleet")
    } else if str_same(icon, "snow") {
        ("❄️", "Snow")
    } else if str_same(icon, "hail") {
        ("🌨️", "Hail")
    } else if str_same(icon, "thunderstorm") {
        ("⛈️", "Thunderstorm")
    } else {
        ("🌡️", "Unknown")
    }
}

/// The picture and the name of the weather with a code of the World
/// Meteorological Organization.
pub open spec fn wmo(code: int) -> (Seq<char>, Seq<char>) {
    if code == 0 {
        ("☀️"@, "Clear"@)
    } else if code == 1 {
        ("🌤️"@, "Mainly clear"@)
    } else if code == 2 {
        ("⛅"@, "Partly cloudy"@)
    } else if code == 3 {
        ("☁️"@, "Overcast"@)
    } else if code == 45 || code == 48 {
        ("🌫️"@, "Fog"@)
    } else if code == 51 || code == 53 || code == 55 {
        ("🌦️"@, "Drizzle"@)
    } else if code == 56 || code == 57 {
        ("🌦️"@, "Freezing drizzle"@)
    } else if code == 61 || code == 63 || code == 65 {
        ("🌧️"@, "Rain"@)
    } else if code == 66 || code == 67 {
        ("🌧️"@, "Freezing rain"@)
    } else if code == 71 || code == 73 || code == 75 {
        ("🌨️"@, "Snowfall"@)
    } else if code == 77 {
        ("🌨️"@, "Snow grains"@)
    } else if code == 80 || code == 81 || code == 82 {
        ("🌦️"@, "Rain showers"@)
    } else if code == 85 || code == 86 {
        ("🌨️"@, "Snow showers"@)
    } else if code == 95 {
        ("⛈️"@, "Thunderstorm"@)
    } else if code == 96 || code == 99 {
        ("⛈️"@, "Thunderstorm with hail"@)
    } else {
        ("🌡️"@, "Unknown"@)
    }
}

/// The picture and the name of the weather with a code of the World
/// Meteorological Organization.
pub fn wmo_icon(code: i64) -> (r: (&'static str, &'static str))
    ensures
        (r.0@, r.1@) == wmo(code as int),
{
    if code == 0 {
        ("☀️", "Clear")
    } else if code == 1 {
        ("🌤️", "Mainly clear")
    } else if code == 2 {
        ("⛅", "Partly cloudy")
    } else if code == 3 {
        ("☁️", "Overcast")
    } else if code == 45 || code == 48 {
        ("🌫️", "Fog")
    } else if code == 51 || code == 53 || code == 55 {
        ("🌦️", "Drizzle")
    } else if code == 56 || code == 57 {
        ("🌦️", "Freezing drizzle")
    } else if code == 61 || code == 63 || code == 65 {
        ("🌧️", "Rain")
    } else if code == 66 || code == 67 {
        ("🌧️", "Freezing rain")
    } else if code == 71 || code == 73 || code == 75 {
        ("🌨️", "Snowfall")
    } else if code == 77 {
        ("🌨️", "Snow grains")
    } else if code == 80 || code == 81 || code == 82 {
        ("🌦️", "Rain showers")
    } else if code == 85 || code == 86 {
        ("🌨️", "Snow showers")
    } else if code == 95 {
        ("⛈️", "Thunderstorm")
    } else if code == 96 || code == 99 {
        ("⛈️", "Thunderstorm with hail")
    } else {
        ("🌡️", "Unknown")
    }
}

/// What an hour of the day is called.
pub open spec fn period(hour: int) -> Seq<char> {
    if hour == 7 {
        "🌅 Morning"@
    } else if hour == 13 {
        "🌞 Midday"@
    } else if hour == 18 {
        "🌆 Evening"@
    } else if hour == 22 {
        "🌙 Night"@
    } else {
        "⏰"@
    }
}

/// What an hour of the day is called.
pub fn period_label(local_hour: u32) -> (r: &'static str)
    ensures
        r@ == period(local_hour as int),
{
    if local_hour == 7 {
        "🌅 Morning"
    } else if local_hour == 13 {
        "🌞 Midday"
    } else if local_hour == 18 {
        "🌆 Evening"
    } else if local_hour == 22 {
        "🌙 Night"
    } else {
        "⏰"
    }
}

// ---------------------------------------------------------------------------
// Lines
// ---------------------------------------------------------------------------

/// What is forecast for an hour.
pub struct Outlook {
    /// A picture of the weather.
    pub emoji: &'static str,
    /// The temperature, in degrees Celsius.
    pub temperature: Real,
    /// How likely rain is, in percent.
    pub precipitation: i64,
    /// The speed of the wind, in kilometres per hour.
    pub wind: Real,
}

/// What is forecast for an hour: a picture, the temperature, how likely rain is
/// and the speed of the wind.
pub struct Weather {
    /// A picture of the weather.
    pub emoji: Seq<char>,
    /// The temperature, in degrees Celsius.
    pub temperature: Real,
    /// How likely rain is, in percent.
    pub precipitation: int,
    /// The speed of the wind, in kilometres per hour.
    pub wind: Real,
}

impl View for Outlook {
    type V = Weather;

    open spec fn view(&self) -> Weather {
        Weather {
            emoji: self.emoji@,
            temperature: self.temperature,
            precipitation: self.precipitation as int,
            wind: self.wind,
        }
    }
}

/// The line for an hour, with a gap between its parts.
pub open spec fn outlook_line(hour: int, w: Weather, gap: Seq<char>) -> Seq<char> {
    period(hour) + ": "@ + w.emoji + " "@ + w.temperature.text(0) + "°C"@ + gap + "💧 "@
        + decimal_int(w.precipitation) + "%"@ + gap + "💨 "@ + w.wind.text(0) + " km/h"@
}

/// The line for an hour, with a gap between its parts.
pub fn outlook_row(hour: u32, w: &Outlook, gap: &str) -> (r: String)
    ensures
        r@ == outlook_line(hour as int, w@, gap@),
{
    let mut out: Vec<char> = Vec::new();
    append_str(&mut out, period_label(hour));
    append_str(&mut out, ": ");
    append_str(&mut out, w.emoji);
    append_str(&mut out, " ");
    append(&mut out, w.temperature.to_text(0).as_slice());
    append_str(&mut out, "°C");
    append_str(&mut out, gap);
    append_str(&mut out, "💧 ");
    append(&mut out, decimal_int_of(w.precipitation).as_slice());
    append_str(&mut out, "%");
    append_str(&mut out, gap);
    append_str(&mut out, "💨 ");
    append(&mut out, w.wind.to_text(0).as_slice());
    append_str(&mut out, " km/h");
    assert(out@ =~= outlook_line(hour as int, w@, gap@));
    string_of(out.as_slice())
}

/// The message with a forecast: its text and its markup. There is none without
/// lines.
pub open spec fn weather_message(
    plain: Seq<Seq<char>>,
    html: Seq<Seq<char>>,
    date: Seq<char>,
) -> Option<(Seq<char>, Seq<char>)> {
    if plain.len() == 0 {
        None
    } else {
        Some(
            (
                "Weather — "@ + date + "\n"@ + join(plain, "\n"@),
                "<strong>Weather — "@ + date + "</strong><br>"@ + join(html, "<br>"@),
            ),
        )
    }
}

/// The message with a forecast, on the day with a date.
pub fn format_message(rows_plain: &Vec<String>, rows_html: &Vec<String>, date: &str) -> (r: Option<
    (String, String),
>)
    ensures
        r.deep_view() == weather_message(rows_plain.deep_view(), rows_html.deep_view(), date@),
{
    assert(rows_plain.deep_view().len() == rows_plain@.len());
    if rows_plain.len() == 0 {
        return None;
    }
    let mut plain: Vec<char> = Vec::new();
    append_str(&mut plain, "Weather — ");
    append_str(&mut plain, date);
    append_str(&mut plain, "\n");
    append_str(&mut plain, join_strings(rows_plain, "\n").as_str());
    assert(plain@ =~= "Weather — "@ + date@ + "\n"@ + join(rows_plain.deep_view(), "\n"@));
    let mut html: Vec<char> = Vec::new();
    append_str(&mut html, "<strong>Weather — ");
    append_str(&mut html, date);
    append_str(&mut html, "</strong><br>");
    append_str(&mut html, join_strings(rows_html, "<br>").as_str());
    assert(html@ =~= "<strong>Weather — "@ + date@ + "</strong><br>"@ + join(
        rows_html.deep_view(),
        "<br>"@,
    ));
    Some((string_of(plain.as_slice()), string_of(html.as_slice())))
}

/// The hours that forecasts speak of.
pub open spec fn forecast_hours() -> Seq<u32> {
    seq![7u32, 13u32, 18u32, 22u32]
}

/// The lines of a forecast for the first `n` of its hours.
pub open spec fn outlook_lines(hours: Seq<Weather>, gap: Seq<char>, n: int) -> Seq<Seq<char>> {
    Seq::new(n as nat, |i: int| outlook_line(forecast_hours()[i] as int, hours[i], gap))
}

/// The forecast for a day: there is one if each of its hours has a forecast.
pub open spec fn forecast(hours: Seq<Option<Weather>>, date: Seq<char>) -> Option<
    (Seq<char>, Seq<char>),
> {
    if exists|i: int| 0 <= i < hours.len() && (#[trigger] hours[i]) is None {
        None
    } else {
        let all = hours.map_values(|w: Option<Weather>| w->0);
        let n = all.len() as int;
        weather_message(
            outlook_lines(all, "  "@, n),
            outlook_lines(all, " &nbsp; "@, n),
            date,
        )
    }
}

/// The forecasts for the hours, as far as they are there.
pub open spec fn outlooks_view(s: Seq<Option<Outlook>>) -> Seq<Option<Weather>> {
    s.map_values(
        |o: Option<Outlook>|
            match o {
                Some(w) => Some(w@),
                None => None,
            },
    )
}

/// The forecast for a day.
pub fn day_forecast(hours: &[Option<Outlook>], date: &str) -> (r: Option<(String, String)>)
    requires
        hours@.len() == 4,
    ensures
        r.deep_view() == forecast(outlooks_view(hours@), date@),
{
    let ghost views = outlooks_view(hours@);
    let ghost all = views.map_values(|w: Option<Weather>| w->0);
    let periods: [u32; 4] = [7, 13, 18, 22];
    assert(periods@ == forecast_hours());
    let mut plain: Vec<String> = Vec::new();
    let mut html: Vec<String> = Vec::new();
    assert(plain.deep_view() == outlook_lines(all, "  "@, 0));
    assert(html.deep_view() == outlook_lines(all, " &nbsp; "@, 0));
    let mut i: usize = 0;
    while i < 4
        invariant
            0 <= i <= 4,
            hours@.len() == 4,
            views == outlooks_view(hours@),
            all == views.map_values(|w: Option<Weather>| w->0),
            periods@ == forecast_hours(),
            plain.deep_view() == outlook_lines(all, "  "@, i as int),
            html.deep_view() == outlook_lines(all, " &nbsp; "@, i as int),
            forall|k: int| 0 <= k < i ==> (#[trigger] views[k]) is Some,
        decreases 4 - i,
    {
        match &hours[i] {
            None => {
                assert(views[i as int] is None);
                return None;
            },
            Some(w) => {
                assert(views[i as int] == Some(w@));
                assert(all[i as int] == w@);
                let ghost before = plain.deep_view();
                let ghost before_html = html.deep_view();
                let line = outlook_row(periods[i], w, "  ");
                let line_html = outlook_row(periods[i], w, " &nbsp; ");
                plain.push(line);
                html.push(line_html);
                assert(plain.deep_view() == before.push(line@)) by {
                    assert(line.deep_view() == line@);
                }
                assert(html.deep_view() == before_html.push(line_html@)) by {
                    assert(line_html.deep_view() == line_html@);
                }
                assert(plain.deep_view() =~= outlook_lines(all, "  "@, i + 1));
                assert(html.deep_view() =~= outlook_lines(all, " &nbsp; "@, i + 1));
            },
        }
        i += 1;
    }
    format_message(&plain, &html, date)
}

// ---------------------------------------------------------------------------
// Bright Sky
// ---------------------------------------------------------------------------

/// Where the forecast of Bright Sky is found.
pub fn brightsky_url(lat: &str, lon: &str, date: &str) -> (r: String)
    ensures
        r@ == "https://api.brightsky.dev/weather?lat="@ + lat@ + "&lon="@ + lon@ + "&date="@ + date@,
{
    let mut out: Vec<char> = Vec::new();
    append_str(&mut out, "https://api.brightsky.dev/weather?lat=");
    append_str(&mut out, lat);
    append_str(&mut out, "&lon=");
    append_str(&mut out, lon);
    append_str(&mut out, "&date=");
    append_str(&mut out, date);
    assert(out@ =~= "https://api.brightsky.dev/weather?lat="@ + lat@ + "&lon="@ + lon@ + "&date="@
        + date@);
    string_of(out.as_slice())
}

/// The whole hours in an offset in seconds, cut off towards zero.
pub open spec fn offset_hours(offset: int) -> int {
    if offset >= 0 {
        offset / 3600
    } else {
        -((-offset) / 3600)
    }
}

/// The hour in Greenwich at a local hour, for a local time ahead of it by an
/// offset in seconds.
pub open spec fn greenwich_hour(local: int, offset: int) -> int {
    (local - offset_hours(offset)) % 24
}

/// The hour in Greenwich at a local hour.
pub fn utc_hour(local: u32, offset: i32) -> (r: u32)
    requires
        local < 24,
        -86400 < offset < 86400,
    ensures
        r == greenwich_hour(local as int, offset as int),
{
    let ahead: i32 = if offset >= 0 {
        offset / 3600
    } else {
        -((-offset) / 3600)
    };
    assert(ahead == offset_hours(offset as int));
    let shifted: i32 = local as i32 - ahead + 24;
    assert(0 < shifted < 72);
    assert(shifted % 24 == (shifted - 24) % 24) by {
        vstd::arithmetic::div_mod::lemma_mod_add_multiples_vanish(shifted - 24, 24);
    }
    (shifted % 24) as u32
}

/// The hour that an entry is for, as its time gives it: that of Greenwich, or of the offset
/// that is named there.
pub open spec fn entry_hour(entry: Json) -> Option<u32> {
    match text_in(member(entry, "timestamp"@)) {
        Some(t) => match rfc3339(t) {
            Some(time) => Some(time.1),
            None => None,
        },
        None => None,
    }
}

/// The hours that entries are for, as their times give them.
pub open spec fn entry_hours(entries: Seq<Json>) -> Seq<Option<u32>> {
    entries.map_values(|e: Json| entry_hour(e))
}

/// The hours that entries are for, as their times give them.
pub fn entry_hours_of(entries: &[Json]) -> (r: Vec<Option<u32>>)
    ensures
        r@ == entry_hours(entries@),
{
    let n: usize = entries.len();
    let mut out: Vec<Option<u32>> = Vec::new();
    let mut i: usize = 0;
    while i < n
        invariant
            0 <= i <= n,
            n == entries@.len(),
            out@ == entry_hours(entries@).take(i as int),
        decreases n - i,
    {
        let hour: Option<u32> = match entries[i].text_of("timestamp") {
            Some(t) => match parse_rfc3339(t) {
                Some(time) => Some(time.1),
                None => None,
            },
            None => None,
        };
        out.push(hour);
        assert(out@ =~= entry_hours(entries@).take(i + 1));
        i += 1;
    }
    assert(out@ =~= entry_hours(entries@));
    out
}

/// The first entry for an hour, from `from` on, where the entries are for the
/// hours `hours`.
pub open spec fn entry_from(
    entries: Seq<Json>,
    hours: Seq<Option<u32>>,
    hour: int,
    from: int,
) -> Option<Json>
    decreases entries.len() - from,
{
    if from < 0 || from >= entries.len() {
        None
    } else if hours[from] matches Some(h) && h == hour {
        Some(entries[from])
    } else {
        entry_from(entries, hours, hour, from + 1)
    }
}

/// What an entry forecasts.
pub open spec fn entry_weather(entry: Json) -> Option<Weather> {
    match real_in(member(entry, "temperature"@)) {
        None => None,
        Some(temperature) => Some(
            Weather {
                emoji: sky(
                    match text_in(member(entry, "icon"@)) {
                        Some(icon) => icon,
                        None => ""@,
                    },
                ).0,
                temperature,
                precipitation: match whole_in(member(entry, "precipitation_probability"@)) {
                    Some(p) => p as int,
                    None => 0,
                },
                wind: match real_in(member(entry, "wind_speed"@)) {
                    Some(w) => w,
                    None => Real { bits: 0 },
                },
            },
        ),
    }
}

/// What is forecast for a local hour.
pub open spec fn brightsky_weather(
    entries: Seq<Json>,
    hours: Seq<Option<u32>>,
    local: int,
    offset: int,
) -> Option<Weather> {
    match entry_from(entries, hours, greenwich_hour(local, offset), 0) {
        Some(e) => entry_weather(e),
        None => None,
    }
}

fn entry_outlook(entry: &Json) -> (r: Option<Outlook>)
    ensures
        r is Some == entry_weather(*entry) is Some,
        r matches Some(w) ==> entry_weather(*entry) == Some(w@),
{
    let temperature = match entry.real_of("temperature") {
        Some(t) => t,
        None => {
            return None;
        },
    };
    let precipitation: i64 = match entry.whole_of("precipitation_probability") {
        Some(p) => p,
        None => 0,
    };
    let wind = match entry.real_of("wind_speed") {
        Some(w) => w,
        None => Real { bits: 0 },
    };
    let icon = match entry.text_of("icon") {
        Some(icon) => icon,
        None => "",
    };
    let (emoji, _name) = brightsky_icon(icon);
    Some(Outlook { emoji, temperature, precipitation, wind })
}

/// What is forecast for a local hour, where the entries are for the hours `hours`
/// in Greenwich.
pub fn brightsky_outlook(entries: &[Json], hours: &[Option<u32>], local: u32, offset: i32) -> (r:
    Option<Outlook>)
    requires
        hours@.len() == entries@.len(),
        local < 24,
        -86400 < offset < 86400,
    ensures
        r is Some == brightsky_weather(
            entries@,
            hours@,
            local as int,
            offset as int,
        ) is Some,
        r matches Some(w) ==> brightsky_weather(entries@, hours@, local as int, offset as int)
            == Some(w@),
{
    let hour: u32 = utc_hour(local, offset);
    let n: usize = entries.len();
    let mut i: usize = 0;
    while i < n
        invariant
            0 <= i <= n,
            n == entries@.len(),
            n == hours@.len(),
            hour == greenwich_hour(local as int, offset as int),
            entry_from(entries@, hours@, hour as int, 0) == entry_from(
                entries@,
                hours@,
                hour as int,
                i as int,
            ),
        decreases n - i,
    {
        let matching = match hours[i] {
            Some(h) => h == hour,
            None => false,
        };
        if matching {
            return entry_outlook(&entries[i]);
        }
        i += 1;
    }
    None
}

/// The forecast for a day that entries hold, which are for the hours `hours` in
/// Greenwich.
pub open spec fn brightsky_day(
    entries: Seq<Json>,
    hours: Seq<Option<u32>>,
    offset: int,
    date: Seq<char>,
) -> Option<(Seq<char>, Seq<char>)> {
    forecast(
        Seq::new(
            4,
            |i: int| brightsky_weather(entries, hours, forecast_hours()[i] as int, offset),
        ),
        date,
    )
}

/// The forecast for a day that entries hold, which are for the hours `hours` in
/// Greenwich.
pub fn brightsky_message(
    entries: &[Json],
    hours: &[Option<u32>],
    offset: i32,
    date: &str,
) -> (r: Option<(String, String)>)
    requires
        hours@.len() == entries@.len(),
        -86400 < offset < 86400,
    ensures
        r.deep_view() == brightsky_day(entries@, hours@, offset as int, date@),
{
    let day = [
        brightsky_outlook(entries, hours, 7, offset),
        brightsky_outlook(entries, hours, 13, offset),
        brightsky_outlook(entries, hours, 18, offset),
        brightsky_outlook(entries, hours, 22, offset),
    ];
    assert(outlooks_view(day@) =~= Seq::new(
        4,
        |i: int|
            brightsky_weather(entries@, hours@, forecast_hours()[i] as int, offset as int),
    ));
    day_forecast(day.as_slice(), date)
}

/// The forecast of Bright Sky that an answer holds.
pub open spec fn brightsky_forecast(answer: Option<Json>, offset: int, date: Seq<char>) -> Option<
    (Seq<char>, Seq<char>),
> {
    match answer {
        None => None,
        Some(j) => match items_in(member(j, "weather"@)) {
            None => None,
            Some(entries) => brightsky_day(entries, entry_hours(entries), offset, date),
        },
    }
}

/// Reads an answer of Bright Sky, on a clock that is ahead of the one in Greenwich
/// by an offset in seconds, on the day with a date.
pub fn read_brightsky_answer(body: &str, offset: i32, date: &str) -> (r: Option<(String, String)>)
    requires
        -86400 < offset < 86400,
    ensures
        r.deep_view() == brightsky_forecast(document_in(body@), offset as int, date@),
{
    let j = match parse_json(body) {
        Some(j) => j,
        None => {
            return None;
        },
    };
    let entries = match j.items_of("weather") {
        Some(e) => e,
        None => {
            return None;
        },
    };
    let hours = entry_hours_of(entries.as_slice());
    brightsky_message(entries.as_slice(), hours.as_slice(), offset, date)
}

// ---------------------------------------------------------------------------
// Open-Meteo
// ---------------------------------------------------------------------------

/// Where the forecast of Open-Meteo is found.
pub fn openmeteo_url(lat: &str, lon: &str) -> (r: String)
    ensures
        r@ == "https://api.open-meteo.com/v1/forecast?latitude="@ + lat@ + "&longitude="@ + lon@
            + "&hourly=weathercode,temperature_2m,precipitation_probability,windspeed_10m&timezone=auto&forecast_days=1"@,
{
    let mut out: Vec<char> = Vec::new();
    append_str(&mut out, "https://api.open-meteo.com/v1/forecast?latitude=");
    append_str(&mut out, lat);
    append_str(&mut out, "&longitude=");
    append_str(&mut out, lon);
    append_str(
        &mut out,
        "&hourly=weathercode,temperature_2m,precipitation_probability,windspeed_10m&timezone=auto&forecast_days=1",
    );
    assert(out@ =~= "https://api.open-meteo.com/v1/forecast?latitude="@ + lat@ + "&longitude="@
        + lon@
        + "&hourly=weathercode,temperature_2m,precipitation_probability,windspeed_10m&timezone=auto&forecast_days=1"@);
    string_of(out.as_slice())
}

/// What is forecast for an hour.
pub open spec fn openmeteo_weather(hourly: Json, hour: int) -> Option<Weather> {
    match real_in(element(member(hourly, "temperature_2m"@), hour)) {
        None => None,
        Some(temperature) => Some(
            Weather {
                emoji: wmo(
                    match whole_in(element(member(hourly, "weathercode"@), hour)) {
                        Some(c) => c as int,
                        None => 0,
                    },
                ).0,
                temperature,
                precipitation: match whole_in(
                    element(member(hourly, "precipitation_probability"@), hour),
                ) {
                    Some(p) => p as int,
                    None => 0,
                },
                wind: match real_in(element(member(hourly, "windspeed_10m"@), hour)) {
                    Some(w) => w,
                    None => Real { bits: 0 },
                },
            },
        ),
    }
}

fn whole_at(j: &Json, key: &str, i: usize) -> (r: Option<i64>)
    ensures
        r == whole_in(element(member(*j, key@), i as int)),
{
    match j.get(key) {
        Some(list) => match list.at(i) {
            Some(Json::Number(n)) => n.whole,
            _ => None,
        },
        None => None,
    }
}

fn real_at(j: &Json, key: &str, i: usize) -> (r: Option<Real>)
    ensures
        r == real_in(element(member(*j, key@), i as int)),
{
    match j.get(key) {
        Some(list) => match list.at(i) {
            Some(Json::Number(n)) => n.real,
            _ => None,
        },
        None => None,
    }
}

/// What is forecast for an hour.
pub fn openmeteo_outlook(hourly: &Json, hour: usize) -> (r: Option<Outlook>)
    ensures
        r is Some == openmeteo_weather(*hourly, hour as int) is Some,
        r matches Some(w) ==> openmeteo_weather(*hourly, hour as int) == Some(w@),
{
    let temperature = match real_at(hourly, "temperature_2m", hour) {
        Some(t) => t,
        None => {
            return None;
        },
    };
    let code: i64 = match whole_at(hourly, "weathercode", hour) {
        Some(c) => c,
        None => 0,
    };
    let precipitation: i64 = match whole_at(hourly, "precipitation_probability", hour) {
        Some(p) => p,
        None => 0,
    };
    let wind = match real_at(hourly, "windspeed_10m", hour) {
        Some(w) => w,
        None => Real { bits: 0 },
    };
    let (emoji, _name) = wmo_icon(code);
    Some(Outlook { emoji, temperature, precipitation, wind })
}

/// The forecast of Open-Meteo that a document holds.
pub open spec fn openmeteo_day(j: Json, date: Seq<char>) -> Option<(Seq<char>, Seq<char>)> {
    forecast(
        Seq::new(
            4,
            |i: int| openmeteo_weather(member(j, "hourly"@), forecast_hours()[i] as int),
        ),
        date,
    )
}

/// The forecast of Open-Meteo that a document holds.
pub fn openmeteo_message(j: &Json, date: &str) -> (r: Option<(String, String)>)
    ensures
        r.deep_view() == openmeteo_day(*j, date@),
{
    let none = Json::Null;
    let hourly = match j.get("hourly") {
        Some(h) => h,
        None => &none,
    };
    assert(*hourly == member(*j, "hourly"@));
    let day = [
        openmeteo_outlook(hourly, 7),
        openmeteo_outlook(hourly, 13),
        openmeteo_outlook(hourly, 18),
        openmeteo_outlook(hourly, 22),
    ];
    assert(outlooks_view(day@) =~= Seq::new(
        4,
        |i: int| openmeteo_weather(*hourly, forecast_hours()[i] as int),
    ));
    day_forecast(day.as_slice(), date)
}

/// Reads an answer of Open-Meteo, on the day with a date.
pub fn read_openmeteo_answer(body: &str, date: &str) -> (r: Option<(String, String)>)
    ensures
        r.deep_view() == (match document_in(body@) {
            Some(j) => openmeteo_day(j, date@),
            None => None,
        }),
{
    match parse_json(body) {
        Some(j) => openmeteo_message(&j, date),
        None => None,
    }
}

// ---------------------------------------------------------------------------
// Laws
// ---------------------------------------------------------------------------

/// The line for an hour shows the weather, the temperature, how likely rain is and the wind.
pub proof fn law_lines_show_the_weather(hour: int, w: Weather, gap: Seq<char>)
    ensures
        starts_with(outlook_line(hour, w, gap), period(hour)),
        occurs(outlook_line(hour, w, gap), w.emoji),
        occurs(outlook_line(hour, w, gap), w.temperature.text(0) + "°C"@),
        occurs(outlook_line(hour, w, gap), decimal_int(w.precipitation) + "%"@),
        ends_with(outlook_line(hour, w, gap), w.wind.text(0) + " km/h"@),
{
    let line = outlook_line(hour, w, gap);
    let warm = w.temperature.text(0) + "°C"@;
    let wet = decimal_int(w.precipitation) + "%"@;
    let windy = w.wind.text(0) + " km/h"@;
    let a = period(hour) + ": "@;
    let b = a + w.emoji + " "@;
    let c = b + warm + gap + "💧 "@;
    let d = c + wet + gap + "💨 "@;
    assert(b + w.temperature.text(0) + "°C"@ == b + warm);
    assert(c + decimal_int(w.precipitation) + "%"@ == c + wet);
    assert(d + w.wind.text(0) + " km/h"@ == d + windy);
    assert(line == d + windy);
    lemma_added(a, w.emoji);
    lemma_kept(a + w.emoji, " "@, w.emoji);
    lemma_kept(b, warm, w.emoji);
    lemma_kept(b + warm, gap, w.emoji);
    lemma_kept(b + warm + gap, "💧 "@, w.emoji);
    lemma_kept(c, wet, w.emoji);
    lemma_kept(c + wet, gap, w.emoji);
    lemma_kept(c + wet + gap, "💨 "@, w.emoji);
    lemma_kept(d, windy, w.emoji);
    lemma_added(b, warm);
    lemma_kept(b + warm, gap, warm);
    lemma_kept(b + warm + gap, "💧 "@, warm);
    lemma_kept(c, wet, warm);
    lemma_kept(c + wet, gap, warm);
    lemma_kept(c + wet + gap, "💨 "@, warm);
    lemma_kept(d, windy, warm);
    lemma_added(c, wet);
    lemma_kept(c + wet, gap, wet);
    lemma_kept(c + wet + gap, "💨 "@, wet);
    lemma_kept(d, windy, wet);
    assert(line.subrange(line.len() - windy.len(), line.len() as int) == windy);
    let n = period(hour).len() as int;
    assert(b.subrange(0, n) == period(hour));
    assert(c.subrange(0, n) == b.subrange(0, n));
    assert(d.subrange(0, n) == c.subrange(0, n));
    assert(line.subrange(0, n) == d.subrange(0, n));
}

/// There is a forecast exactly if each of its hours has one. It names the date, and has a line
/// for each hour: for the morning, midday, the evening and the night.
pub proof fn law_forecasts_show_every_hour(hours: Seq<Option<Weather>>, date: Seq<char>, i: int)
    requires
        hours.len() == 4,
        0 <= i < 4,
    ensures
        forecast(hours, date) is Some <==> hours[0] is Some && hours[1] is Some && hours[2] is Some
            && hours[3] is Some,
        forecast(hours, date) matches Some(m) ==> {
            let hour = if i == 0 {
                7int
            } else if i == 1 {
                13
            } else if i == 2 {
                18
            } else {
                22
            };
            &&& occurs(m.0, date) && occurs(m.1, date)
            &&& occurs(m.0, outlook_line(hour, hours[i]->0, "  "@))
            &&& occurs(m.1, outlook_line(hour, hours[i]->0, " &nbsp; "@))
        },
{
    if hours[0] is Some && hours[1] is Some && hours[2] is Some && hours[3] is Some {
        assert(!exists|k: int| 0 <= k < hours.len() && (#[trigger] hours[k]) is None);
        let all = hours.map_values(|w: Option<Weather>| w->0);
        let plain = outlook_lines(all, "  "@, 4);
        let html = outlook_lines(all, " &nbsp; "@, 4);
        assert(all.len() == 4);
        let m = forecast(hours, date)->0;
        law_joined_parts_are_kept(plain, "\n"@, i);
        law_joined_parts_are_kept(html, "<br>"@, i);
        let a = "Weather — "@ + date;
        let b = "<strong>Weather — "@ + date;
        lemma_added("Weather — "@, date);
        lemma_kept(a, "\n"@, date);
        lemma_kept(a + "\n"@, join(plain, "\n"@), date);
        lemma_added(a + "\n"@, join(plain, "\n"@));
        lemma_occurs_within(m.0, join(plain, "\n"@), plain[i]);
        lemma_added("<strong>Weather — "@, date);
        lemma_kept(b, "</strong><br>"@, date);
        lemma_kept(b + "</strong><br>"@, join(html, "<br>"@), date);
        lemma_added(b + "</strong><br>"@, join(html, "<br>"@));
        lemma_occurs_within(m.1, join(html, "<br>"@), html[i]);
        assert(all[i] == hours[i]->0);
    }
}

/// The hour in Greenwich and the whole hours that a clock is ahead of it make the local hour.
pub proof fn law_clocks_agree(local: int, offset: int)
    requires
        0 <= local < 24,
    ensures
        0 <= greenwich_hour(local, offset) < 24,
        (greenwich_hour(local, offset) + offset_hours(offset)) % 24 == local,
        offset >= 0 ==> offset - 3600 < 3600 * offset_hours(offset) <= offset,
        offset_hours(-offset) == -offset_hours(offset),
{
    let a = offset_hours(offset);
    vstd::arithmetic::div_mod::lemma_add_mod_noop(local - a, a, 24);
    vstd::arithmetic::div_mod::lemma_small_mod(local as nat, 24);
    vstd::arithmetic::div_mod::lemma_add_mod_noop((local - a) % 24, a, 24);
    vstd::arithmetic::div_mod::lemma_mod_twice(local - a, 24);
}

/// The entry that is taken for an hour is the first one that is for it.
pub proof fn law_first_entries_count(
    entries: Seq<Json>,
    hours: Seq<Option<u32>>,
    hour: int,
    from: int,
)
    requires
        hours.len() == entries.len(),
        0 <= from,
    ensures
        match entry_from(entries, hours, hour, from) {
            Some(e) => exists|i: int|
                from <= i < entries.len() && (#[trigger] hours[i]) is Some && hours[i]->0 == hour
                    && e == entries[i] && forall|j: int|
                    from <= j < i ==> !((#[trigger] hours[j]) is Some && hours[j]->0 == hour),
            None => forall|j: int|
                from <= j < entries.len() ==> !((#[trigger] hours[j]) is Some && hours[j]->0
                    == hour),
        },
    decreases entries.len() - from,
{
    if from < entries.len() {
        if hours[from] is Some && hours[from]->0 == hour {
            assert(hours[from] is Some);
        } else {
            law_first_entries_count(entries, hours, hour, from + 1);
            if let Some(e) = entry_from(entries, hours, hour, from) {
                let i = choose|i: int|
                    from + 1 <= i < entries.len() && (#[trigger] hours[i]) is Some && hours[i]->0
                        == hour && e == entries[i] && forall|j: int|
                        from + 1 <= j < i ==> !((#[trigger] hours[j]) is Some && hours[j]->0
                            == hour);
                assert(hours[i] is Some);
            }
        }
    }
}

/// What is forecast is what the answer gives for the hour: there is a forecast exactly if there
/// is a temperature, and what is missing besides counts as nothing.
pub proof fn law_forecasts_say_what_answers_say(entry: Json, hourly: Json, hour: int)
    ensures
        entry_weather(entry) is Some <==> real_in(member(entry, "temperature"@)) is Some,
        entry_weather(entry) matches Some(w) ==> {
            &&& Some(w.temperature) == real_in(member(entry, "temperature"@))
            &&& whole_in(member(entry, "precipitation_probability"@)) matches Some(p) ==>
                w.precipitation == p
            &&& whole_in(member(entry, "precipitation_probability"@)) is None ==> w.precipitation
                == 0
            &&& real_in(member(entry, "wind_speed"@)) matches Some(v) ==> w.wind == v
            &&& text_in(member(entry, "icon"@)) matches Some(icon) ==> w.emoji == sky(icon).0
        },
        openmeteo_weather(hourly, hour) is Some <==> real_in(
            element(member(hourly, "temperature_2m"@), hour),
        ) is Some,
        openmeteo_weather(hourly, hour) matches Some(w) ==> {
            &&& Some(w.temperature) == real_in(element(member(hourly, "temperature_2m"@), hour))
            &&& whole_in(element(member(hourly, "precipitation_probability"@), hour)) matches Some(
                p,
            ) ==> w.precipitation == p
            &&& whole_in(element(member(hourly, "precipitation_probability"@), hour)) is None ==>
                w.precipitation == 0
            &&& real_in(element(member(hourly, "windspeed_10m"@), hour)) matches Some(v) ==> w.wind
                == v
            &&& whole_in(element(member(hourly, "weathercode"@), hour)) matches Some(c) ==> w.emoji
                == wmo(c as int).0
        },
{
}

/// The codes of the World Meteorological Organization go by what falls: drizzle in the fifties,
/// rain in the sixties, snow in the seventies.
pub proof fn law_codes_go_by_what_falls(code: int)
    ensures
        50 <= code < 60 && wmo(code) != wmo(-1) ==> wmo(code).1 == "Drizzle"@ || wmo(code).1
            == "Freezing drizzle"@,
        60 <= code < 70 && wmo(code) != wmo(-1) ==> wmo(code).1 == "Rain"@ || wmo(code).1
            == "Freezing rain"@,
        70 <= code < 80 && wmo(code) != wmo(-1) ==> wmo(code).1 == "Snowfall"@ || wmo(code).1
            == "Snow grains"@,
        80 <= code < 83 ==> wmo(code).1 == "Rain showers"@,
        85 <= code < 87 ==> wmo(code).1 == "Snow showers"@,
{
}

/// An icon is known by its name alone: each kind of weather is named for its own icons, those
/// of day and night alike, and every other icon is unknown.
pub proof fn law_icons_name_their_weather(icon: Seq<char>)
    ensures
        sky(icon).1 == "Clear"@ <==> icon == "clear-day"@ || icon == "clear-night"@,
        sky(icon).1 == "Partly cloudy"@ <==> icon == "partly-cloudy-day"@ || icon
            == "partly-cloudy-night"@,
        sky(icon).1 == "Cloudy"@ <==> icon == "cloudy"@,
        sky(icon).1 == "Fog"@ <==> icon == "fog"@,
        sky(icon).1 == "Windy"@ <==> icon == "wind"@,
        sky(icon).1 == "Rain"@ <==> icon == "rain"@,
        sky(icon).1 == "Sleet"@ <==> icon == "sleet"@,
        sky(icon).1 == "Snow"@ <==> icon == "snow"@,
        sky(icon).1 == "Hail"@ <==> icon == "hail"@,
        sky(icon).1 == "Thunderstorm"@ <==> icon == "thunderstorm"@,
        sky(icon).1 == "Unknown"@ <==> sky(icon).0 == "🌡️"@,
        sky(icon).1 == "Clear"@ ==> sky(icon).0 == "☀️"@ || sky(icon).0 == "🌙"@,
        sky(icon).1 == "Partly cloudy"@ ==> sky(icon).0 == "⛅"@ || sky(icon).0 == "🌤️"@,
        sky(icon).1 == "Cloudy"@ ==> sky(icon).0 == "☁️"@,
        sky(icon).1 == "Fog"@ ==> sky(icon).0 == "🌫️"@,
        sky(icon).1 == "Windy"@ ==> sky(icon).0 == "🌬️"@,
        sky(icon).1 == "Rain"@ ==> sky(icon).0 == "🌧️"@,
        sky(icon).1 == "Sleet"@ || sky(icon).1 == "Hail"@ ==> sky(icon).0 == "🌨️"@,
        sky(icon).1 == "Snow"@ ==> sky(icon).0 == "❄️"@,
        sky(icon).1 == "Thunderstorm"@ ==> sky(icon).0 == "⛈️"@,
{
    reveal_strlit("clear-day");
    reveal_strlit("clear-night");
    reveal_strlit("partly-cloudy-day");
    reveal_strlit("partly-cloudy-night");
    reveal_strlit("cloudy");
    reveal_strlit("fog");
    reveal_strlit("wind");
    reveal_strlit("rain");
    reveal_strlit("sleet");
    reveal_strlit("snow");
    reveal_strlit("hail");
    reveal_strlit("thunderstorm");
    reveal_strlit("Clear");
    reveal_strlit("Partly cloudy");
    reveal_strlit("Cloudy");
    reveal_strlit("Fog");
    reveal_strlit("Windy");
    reveal_strlit("Rain");
    reveal_strlit("Sleet");
    reveal_strlit("Snow");
    reveal_strlit("Hail");
    reveal_strlit("Thunderstorm");
    reveal_strlit("Unknown");
    reveal_strlit("🌡️");
    reveal_strlit("☀️");
    reveal_strlit("🌙");
    reveal_strlit("⛅");
    reveal_strlit("🌤️");
    reveal_strlit("☁️");
    reveal_strlit("🌫️");
    reveal_strlit("🌬️");
    reveal_strlit("🌧️");
    reveal_strlit("🌨️");
    reveal_strlit("❄️");
    reveal_strlit("⛈️");
    assert("clear-day"@.len() == 9 && "clear-night"@.len() == 11);
    assert("partly-cloudy-day"@.len() == 17 && "partly-cloudy-night"@.len() == 19);
    assert("cloudy"@.len() == 6 && "fog"@.len() == 3 && "wind"@.len() == 4 && "rain"@.len() == 4);
    assert("sleet"@.len() == 5 && "snow"@.len() == 4 && "hail"@.len() == 4);
    assert("thunderstorm"@.len() == 12);
    assert("Clear"@.len() == 5 && "Partly cloudy"@.len() == 13 && "Cloudy"@.len() == 6);
    assert("Fog"@.len() == 3 && "Windy"@.len() == 5 && "Rain"@.len() == 4 && "Sleet"@.len() == 5);
    assert("Snow"@.len() == 4 && "Hail"@.len() == 4 && "Thunderstorm"@.len() == 12);
    assert("Unknown"@.len() == 7);
    assert("wind"@[0] == 'w' && "rain"@[0] == 'r' && "snow"@[0] == 's' && "hail"@[0] == 'h');
    assert("Clear"@[0] == 'C' && "Windy"@[0] == 'W' && "Sleet"@[0] == 'S');
    assert("Rain"@[0] == 'R' && "Snow"@[0] == 'S' && "Hail"@[0] == 'H');
    let thermometer = "🌡️"@[0];
    assert("☀️"@[0] != thermometer && "🌙"@[0] != thermometer && "⛅"@[0] != thermometer);
    assert("🌤️"@[0] != thermometer && "☁️"@[0] != thermometer && "🌫️"@[0] != thermometer);
    assert("🌬️"@[0] != thermometer && "🌧️"@[0] != thermometer && "🌨️"@[0] != thermometer);
    assert("❄️"@[0] != thermometer && "⛈️"@[0] != thermometer);
}

/// Each kind of weather is named for its own codes, and every other code is unknown.
pub proof fn law_codes_name_their_weather(code: int)
    ensures
        wmo(code).1 == "Clear"@ <==> code == 0,
        wmo(code).1 == "Mainly clear"@ <==> code == 1,
        wmo(code).1 == "Partly cloudy"@ <==> code == 2,
        wmo(code).1 == "Overcast"@ <==> code == 3,
        wmo(code).1 == "Fog"@ <==> code == 45 || code == 48,
        wmo(code).1 == "Drizzle"@ <==> code == 51 || code == 53 || code == 55,
        wmo(code).1 == "Freezing drizzle"@ <==> code == 56 || code == 57,
        wmo(code).1 == "Rain"@ <==> code == 61 || code == 63 || code == 65,
        wmo(code).1 == "Freezing rain"@ <==> code == 66 || code == 67,
        wmo(code).1 == "Snowfall"@ <==> code == 71 || code == 73 || code == 75,
        wmo(code).1 == "Snow grains"@ <==> code == 77,
        wmo(code).1 == "Rain showers"@ <==> code == 80 || code == 81 || code == 82,
        wmo(code).1 == "Snow showers"@ <==> code == 85 || code == 86,
        wmo(code).1 == "Thunderstorm"@ <==> code == 95,
        wmo(code).1 == "Thunderstorm with hail"@ <==> code == 96 || code == 99,
        wmo(code).1 == "Clear"@ ==> wmo(code).0 == "☀️"@,
        wmo(code).1 == "Mainly clear"@ ==> wmo(code).0 == "🌤️"@,
        wmo(code).1 == "Partly cloudy"@ ==> wmo(code).0 == "⛅"@,
        wmo(code).1 == "Overcast"@ ==> wmo(code).0 == "☁️"@,
        wmo(code).1 == "Fog"@ ==> wmo(code).0 == "🌫️"@,
        wmo(code).1 == "Drizzle"@ ==> wmo(code).0 == "🌦️"@,
        wmo(code).1 == "Freezing drizzle"@ ==> wmo(code).0 == "🌦️"@,
        wmo(code).1 == "Rain"@ ==> wmo(code).0 == "🌧️"@,
        wmo(code).1 == "Freezing rain"@ ==> wmo(code).0 == "🌧️"@,
        wmo(code).1 == "Snowfall"@ ==> wmo(code).0 == "🌨️"@,
        wmo(code).1 == "Snow grains"@ ==> wmo(code).0 == "🌨️"@,
        wmo(code).1 == "Rain showers"@ ==> wmo(code).0 == "🌦️"@,
        wmo(code).1 == "Snow showers"@ ==> wmo(code).0 == "🌨️"@,
        wmo(code).1 == "Thunderstorm"@ ==> wmo(code).0 == "⛈️"@,
        wmo(code).1 == "Thunderstorm with hail"@ ==> wmo(code).0 == "⛈️"@,
        wmo(code).1 == "Unknown"@ ==> wmo(code).0 == "🌡️"@,
{
    reveal_strlit("Clear");
    reveal_strlit("Mainly clear");
    reveal_strlit("Partly cloudy");
    reveal_strlit("Overcast");
    reveal_strlit("Fog");
    reveal_strlit("Drizzle");
    reveal_strlit("Freezing drizzle");
    reveal_strlit("Rain");
    reveal_strlit("Freezing rain");
    reveal_strlit("Snowfall");
    reveal_strlit("Snow grains");
    reveal_strlit("Rain showers");
    reveal_strlit("Snow showers");
    reveal_strlit("Thunderstorm");
    reveal_strlit("Thunderstorm with hail");
    reveal_strlit("Unknown");
    assert("Clear"@.len() == 5 && "Clear"@[0] == 'C');
    assert("Mainly clear"@.len() == 12 && "Mainly clear"@[0] == 'M');
    assert("Partly cloudy"@.len() == 13 && "Partly cloudy"@[0] == 'P');
    assert("Overcast"@.len() == 8 && "Overcast"@[0] == 'O');
    assert("Fog"@.len() == 3 && "Fog"@[0] == 'F');
    assert("Drizzle"@.len() == 7 && "Drizzle"@[0] == 'D');
    assert("Freezing drizzle"@.len() == 16 && "Freezing drizzle"@[0] == 'F');
    assert("Rain"@.len() == 4 && "Rain"@[0] == 'R');
    assert("Freezing rain"@.len() == 13 && "Freezing rain"@[0] == 'F');
    assert("Snowfall"@.len() == 8 && "Snowfall"@[0] == 'S');
    assert("Snow grains"@.len() == 11 && "Snow grains"@[0] == 'S');
    assert("Rain showers"@.len() == 12 && "Rain showers"@[0] == 'R');
    assert("Snow showers"@.len() == 12 && "Snow showers"@[0] == 'S');
    assert("Thunderstorm"@.len() == 12 && "Thunderstorm"@[0] == 'T');
    assert("Thunderstorm with hail"@.len() == 22 && "Thunderstorm with hail"@[0] == 'T');
    assert("Unknown"@.len() == 7 && "Unknown"@[0] == 'U');
}

/// An entry is for the hour of its time stamp, and for none where that cannot be read.
pub proof fn law_entries_have_their_hour(entries: Seq<Json>, i: int)
    requires
        0 <= i < entries.len(),
    ensures
        entry_hours(entries).len() == entries.len(),
        text_in(member(entries[i], "timestamp"@)) matches Some(t) ==> (match rfc3339(t) {
            Some((_, hour)) => entry_hours(entries)[i] == Some(hour),
            None => entry_hours(entries)[i] is None,
        }),
        text_in(member(entries[i], "timestamp"@)) is None ==> entry_hours(entries)[i] is None,
{
}

/// The hours of a forecast have their parts of the day, each its own, and other hours none.
pub proof fn law_hours_have_their_part_of_the_day(hour: int)
    ensures
        period(hour) == "🌅 Morning"@ <==> hour == 7,
        period(hour) == "🌞 Midday"@ <==> hour == 13,
        period(hour) == "🌆 Evening"@ <==> hour == 18,
        period(hour) == "🌙 Night"@ <==> hour == 22,
        period(hour) == "⏰"@ <==> hour != 7 && hour != 13 && hour != 18 && hour != 22,
{
    reveal_strlit("🌅 Morning");
    reveal_strlit("🌞 Midday");
    reveal_strlit("🌆 Evening");
    reveal_strlit("🌙 Night");
    reveal_strlit("⏰");
    assert("🌅 Morning"@.len() == 9 && "🌅 Morning"@[2] == 'M');
    assert("🌆 Evening"@.len() == 9 && "🌆 Evening"@[2] == 'E');
    assert("🌞 Midday"@.len() == 8 && "🌙 Night"@.len() == 7 && "⏰"@.len() == 1);
}

} // verus!
